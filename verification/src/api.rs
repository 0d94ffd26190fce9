//! Main storage API: PUT, GET, DELETE, object metadata, garbage collection and recovery.
//!
//! The functions here decide and compute; what they need from disks and databases is handed to
//! them, and what they want written is handed back.
use crate::bytes::copy_range;
use crate::checksum::{check_hash, StreamingObjectHash};
use crate::chunk_store::{ChunkStore, RecoveredChunk};
use crate::clock::current_time;
use crate::cluster::ClusterId;
use crate::config::Config;
use crate::disk::{entry_offset, safe_key, VersionMeta, VersionStatus};
use crate::errors::{StorageError, StorageResult};
use crate::metadata::{object_key_of, version_key, BatchPlan, ReplicatedMetaStore};
use crate::metadata_map::MetadataMap;
use crate::object_read::{chunk_len, ReadChunks, CHUNK_SIZE_DEFAULT};
use crate::record::serialize_record;
use crate::text::{
    decimal_string, join2, join3, owned, parse_u64, same_text, strip_prefix, to_lowercase,
};
use vstd::prelude::*;

pub use crate::listing::{list, ListEntry};

verus! {

use crate::checksum::object_hash_of;
use crate::chunk_store::{
    are_shards_of_payload, correction_pairs, corrections_of, corrects, is_chunk_encoding,
    is_payload, lemma_corrections, read_shards, touches,
};
use crate::disk::{
    below, entry_offset_of, law_directory_names_are_distinct, lemma_safe_key_has_no_slash,
    safe_key_of, same_meta, version_file_of,
};
use crate::erasure::decoded_shards;
use crate::metadata::{
    healthy, law_object_key_is_found_again, lemma_decimal_digits, object_key_in, put_pairs,
    recovery_defect, version_key_of,
};
use crate::object_read::{
    all_enough, chunk_count, chunk_len_of, chunk_of, chunk_start_in, decoded_chunk, decoded_range,
    enough_shards, is_chunk_error, is_stored, lemma_chunk_len,
};
use crate::object_write::{entry_sizes_of, is_written, law_written_file_len, lemma_entry_size};
use crate::record::{fits_record, is_record_of, record_bytes};
use crate::shards::{data_shards_of, lemma_shard_size, shard_size_of};
use crate::text::{decimal, digit_value, digits_value, lowercase, parsed, zero_padded};
use crate::versions::writes_record;

/// The object storage service.
pub struct ObjectStorage {
    pub config: Config,
    pub chunk_store: ChunkStore,
    pub meta_store: ReplicatedMetaStore,
}

/// The message of a range whose start is behind the end of the object.
pub open spec fn range_defect(start: u64, end: u64, size: u64) -> Option<Seq<char>> {
    if start >= size {
        Some("range start "@ + decimal(start as nat) + " >= object size "@ + decimal(size as nat))
    } else if end >= size {
        Some("range end "@ + decimal(end as nat) + " >= object size "@ + decimal(size as nat))
    } else if end < start {
        Some("range end "@ + decimal(end as nat) + " < start "@ + decimal(start as nat))
    } else {
        None
    }
}

/// The number of the chunk that holds the byte at `pos`.
pub open spec fn chunk_index(pos: nat) -> nat {
    pos / (CHUNK_SIZE_DEFAULT as nat)
}

/// A byte range of an object.
#[derive(Debug)]
pub struct RangeRead {
    pub data: Vec<u8>,
    /// The size of the whole object.
    pub size: u64,
    /// For each chunk that was read, shard index and data of each shard that could not be read.
    pub corrections: Vec<Vec<(usize, Vec<u8>)>>,
}

/// The chunks that a byte range needs.
#[derive(Debug, Clone, Copy, PartialEq, Eq, Structural)]
pub struct RangePlan {
    /// The first chunk.
    pub first: usize,
    /// The number of chunks.
    pub count: usize,
    /// The size of the whole object.
    pub size: u64,
}

/// Check a byte range against the size of an object.
pub fn check_range(start: u64, end: u64, size: u64) -> (r: StorageResult<()>)
    ensures
        r is Ok <==> range_defect(start, end, size) is None,
        r matches Err(e) ==> e matches StorageError::InvalidRange(m) && m@ == range_defect(
            start,
            end,
            size,
        ).unwrap(),
{
    if start >= size {
        let mut m = join3(
            "range start ",
            decimal_string(start as u128).as_str(),
            " >= object size ",
        );
        m.append(decimal_string(size as u128).as_str());
        return Err(StorageError::InvalidRange(m));
    }
    if end >= size {
        let mut m = join3(
            "range end ",
            decimal_string(end as u128).as_str(),
            " >= object size ",
        );
        m.append(decimal_string(size as u128).as_str());
        return Err(StorageError::InvalidRange(m));
    }
    if end < start {
        let mut m = join3("range end ", decimal_string(end as u128).as_str(), " < start ");
        m.append(decimal_string(start as u128).as_str());
        return Err(StorageError::InvalidRange(m));
    }
    Ok(())
}

/// Check that an object key is not empty.
pub fn check_key(object_key: &str) -> (r: StorageResult<()>)
    ensures
        r is Ok <==> object_key@.len() > 0,
        r matches Err(e) ==> e matches StorageError::NotFound(m) && m@
            == "object key cannot be empty"@,
{
    if object_key.unicode_len() == 0 {
        Err(StorageError::NotFound("object key cannot be empty".to_owned()))
    } else {
        Ok(())
    }
}

/// The version to read: the one of the token, or else the latest one.
pub fn resolve_version(raw_token: Option<u64>, latest: StorageResult<u64>) -> (r: StorageResult<
    u64,
>)
    ensures
        raw_token matches Some(token) ==> r == StorageResult::<u64>::Ok(token),
        raw_token is None ==> r == latest,
{
    match raw_token {
        Some(token) => Ok(token),
        None => latest,
    }
}

/// Check that a version that was read is the one asked for, and committed.
pub fn fetch_meta(object_key: &str, version: u64, meta: VersionMeta) -> (r: StorageResult<
    (VersionMeta, u64),
>)
    ensures
        r is Ok <==> meta.version == version && meta.status == VersionStatus::Committed,
        r matches Ok((m, v)) ==> m == meta && v == version,
        r matches Err(e) ==> e matches StorageError::VersionNotFound { key, version: v } && key@
            == object_key@ && v == version,
{
    if meta.version != version || meta.status != VersionStatus::Committed {
        return Err(StorageError::VersionNotFound { key: owned(object_key), version });
    }
    Ok((meta, version))
}

/// The version to delete, if the object has one.
pub fn check_delete(object_key: &str, latest: StorageResult<u64>) -> (r: StorageResult<u64>)
    ensures
        r is Ok <==> object_key@.len() > 0 && latest is Ok,
        r matches Ok(v) ==> latest == StorageResult::<u64>::Ok(v),
        r matches Err(e) ==> if object_key@.len() == 0 {
            e matches StorageError::NotFound(m) && m@ == "object key cannot be empty"@
        } else {
            match latest {
                Err(c) => if c is NotFound {
                    e matches StorageError::NotFound(m) && m@ == object_key@
                } else {
                    e == c
                },
                Ok(_) => false,
            }
        },
{
    match check_key(object_key) {
        Ok(()) => {},
        Err(e) => {
            return Err(e);
        },
    }
    match latest {
        Ok(v) => Ok(v),
        Err(StorageError::NotFound(_)) => Err(StorageError::NotFound(owned(object_key))),
        Err(e) => Err(e),
    }
}

/// An object that is read chunk by chunk, in order.
pub struct ObjectReader {
    hasher: StreamingObjectHash,
    next: usize,
}

impl ObjectReader {
    /// The data delivered so far.
    pub closed spec fn delivered(self) -> Seq<u8> {
        self.hasher@
    }

    /// The number of chunks delivered so far.
    pub closed spec fn position(self) -> nat {
        self.next as nat
    }

    /// Start reading.
    pub fn new() -> (r: Self)
        ensures
            r.delivered() == Seq::<u8>::empty(),
            r.position() == 0,
    {
        ObjectReader { hasher: StreamingObjectHash::new(), next: 0 }
    }

    /// The chunk to deliver next.
    pub fn next_chunk(&self) -> (r: usize)
        ensures
            r == self.position(),
    {
        self.next
    }

    /// Deliver the next chunk, from what was read of its shards.
    pub fn read_next(
        &mut self,
        store: &ChunkStore,
        meta: &VersionMeta,
        results: &[StorageResult<Vec<u8>>],
    ) -> (r: StorageResult<RecoveredChunk>)
        requires
            store.wf(),
            old(self).position() < meta.chunk_checksums@.len(),
            results@.len() == store.num_disks,
        ensures
            ({
                let chunk = decoded_chunk(
                    store.coder.k(),
                    store.coder.c(),
                    *meta,
                    old(self).position() as int,
                    results@,
                );
                &&& r is Ok <==> chunk is Some
                &&& r matches Ok(read) ==> chunk == Some(read.data@) && final(self).position()
                    == old(self).position() + 1 && final(self).delivered() == old(self).delivered()
                    + read.data@ && correction_pairs(read.corrections@) == corrections_of(
                    read_shards(results@),
                    decoded_shards(store.coder.k(), store.coder.c(), read_shards(results@)),
                    results@.len() as int,
                )
                &&& r is Err ==> final(self).position() == old(self).position() && final(
                    self).delivered() == old(self).delivered()
            }),
            r matches Err(e) ==> is_chunk_error(
                store.coder.k(),
                store.coder.c(),
                *meta,
                old(self).position() as int,
                results@,
                e,
            ),
            forall|data: Seq<u8>, shards: Seq<Seq<Seq<u8>>>| #[trigger]
                is_stored(store.coder.k(), store.coder.c(), *meta, data, shards) && enough_shards(
                    store.coder.k(),
                    shards[old(self).position() as int],
                    results@,
                ) ==> r is Ok && r.unwrap().data@ == chunk_of(data, old(self).position() as int),
    {
        match store.decode_chunk(meta, self.next, results) {
            Ok(chunk) => {
                assert(self.next < meta.chunk_checksums.len());
                self.hasher.update(chunk.data.as_slice());
                self.next = self.next + 1;
                Ok(chunk)
            },
            Err(e) => Err(e),
        }
    }

    /// Finish reading, after all chunks have been delivered: the hash of the data is verified. The
    /// result is the number of chunks.
    pub fn finish(self, meta: &VersionMeta) -> (r: StorageResult<usize>)
        requires
            self.position() == meta.chunk_checksums@.len(),
        ensures
            r is Ok <==> object_hash_of(self.delivered()) == meta.checksum,
            r matches Ok(n) ==> n == meta.chunk_checksums@.len(),
            r matches Err(e) ==> e == (StorageError::ChecksumMismatch {
                expected: meta.checksum,
                actual: object_hash_of(self.delivered()) as u128,
            }),
    {
        let actual: u128 = self.hasher.finalize();
        match check_hash(meta.checksum, actual) {
            Ok(()) => Ok(self.next),
            Err(e) => Err(e),
        }
    }
}

/// The sizes of the entries that each disk has of the chunks of an object: from the compressed sizes
/// on record or, where there are none, from the sizes of the chunks.
pub open spec fn chunk_entry_sizes(meta: VersionMeta, k: nat, n: nat) -> Seq<u64> {
    if meta.compressed_sizes@.len() == meta.chunk_checksums@.len() {
        entry_sizes_of(meta.compressed_sizes@, n)
    } else {
        Seq::new(
            meta.chunk_checksums@.len(),
            |i: int|
                match chunk_len_of(meta.data_size as nat, meta.chunk_checksums@.len(), i) {
                    Some(len) => (24 + shard_size_of(len, k)) as u64,
                    None => 24,
                },
        )
    }
}

/// Whether `r` is the result of reading a whole object, from what was read of its chunks.
pub open spec fn is_get_result(
    store: ChunkStore,
    meta: VersionMeta,
    results: Seq<Vec<StorageResult<Vec<u8>>>>,
    r: StorageResult<ReadChunks>,
) -> bool {
    let k = store.coder.k();
    let c = store.coder.c();
    let all = decoded_range(k, c, meta, 0, results.len() as int, results);
    &&& r is Ok <==> all is Some
    &&& r matches Ok(read) ==> all == Some(read.data@) && read.corrections@.len() == results.len()
        && forall|j: int|
        0 <= j < results.len() ==> correction_pairs((#[trigger] read.corrections@[j])@)
            == corrections_of(
            read_shards(results[j]@),
            decoded_shards(k, c, read_shards(results[j]@)),
            store.num_disks as int,
        )
    &&& r matches Err(e) ==> exists|j: int|
        0 <= j < results.len() && decoded_range(k, c, meta, 0, j, results) is Some
            && #[trigger] is_chunk_error(k, c, meta, j, results[j]@, e)
    // With enough shards of every chunk, what was stored is read.
    &&& forall|data: Seq<u8>, shards: Seq<Seq<Seq<u8>>>| #[trigger]
        is_stored(k, c, meta, data, shards) && all_enough(k, shards, 0, results) ==> r is Ok
            && r.unwrap().data@ == data
}

/// Whether `r` is the result of reading the bytes from `start` to `end`, both inclusive, of an
/// object, from what was read of the chunks that the range needs.
pub open spec fn is_range_result(
    store: ChunkStore,
    object_key: Seq<char>,
    meta: VersionMeta,
    start: u64,
    end: u64,
    results: Seq<Vec<StorageResult<Vec<u8>>>>,
    r: StorageResult<RangeRead>,
) -> bool {
    let k = store.coder.k();
    let c = store.coder.c();
    let total = meta.chunk_checksums@.len();
    let first = chunk_index(start as nat);
    let base = first * CHUNK_SIZE_DEFAULT;
    let read = decoded_range(k, c, meta, first as int, results.len() as int, results);
    if object_key.len() == 0 {
        r matches Err(e) && e matches StorageError::NotFound(m) && m@
            == "object key cannot be empty"@
    } else if range_defect(start, end, meta.data_size as u64) is Some {
        r matches Err(e) && e matches StorageError::InvalidRange(m) && m@ == range_defect(
            start,
            end,
            meta.data_size as u64,
        ).unwrap()
    } else if total == 0 {
        r matches Ok(range) && range.data@.len() == 0 && range.size == 0
            && range.corrections@.len() == 0
    } else {
        &&& r is Ok <==> chunk_index(end as nat) < total && read is Some && end - base
            < read.unwrap().len()
        &&& r matches Ok(range) ==> range.data@ == read.unwrap().subrange(
            start - base,
            end - base + 1,
        ) && range.size == meta.data_size
        &&& r matches Ok(range) ==> range.corrections@.len() == results.len() && forall|j: int|
            0 <= j < results.len() ==> correction_pairs((#[trigger] range.corrections@[j])@)
                == corrections_of(
                read_shards(results[j]@),
                decoded_shards(k, c, read_shards(results[j]@)),
                store.num_disks as int,
            )
        &&& r matches Err(e) ==> if chunk_index(end as nat) < total && read is None {
            exists|j: int|
                0 <= j < results.len() && decoded_range(k, c, meta, first as int, j, results)
                    is Some && #[trigger] is_chunk_error(k, c, meta, first + j, results[j]@, e)
        } else {
            e matches StorageError::KvError(m) && m@ == "data size does not match chunk count"@
        }
        // With enough shards of the chunks, the range is that of what was stored.
        &&& forall|data: Seq<u8>, shards: Seq<Seq<Seq<u8>>>| #[trigger]
            is_stored(k, c, meta, data, shards) && start <= end < data.len() && all_enough(
                k,
                shards,
                first as int,
                results,
            ) ==> r is Ok && r.unwrap().data@ == data.subrange(start as int, end + 1)
                && r.unwrap().size == data.len()
    }
}

impl ObjectStorage {
    /// Create the storage of a configuration, with the cluster ids of its disks.
    pub fn new(config: Config, ids: &[ClusterId]) -> (r: StorageResult<Self>)
        requires
            config.n() <= usize::MAX,
            ids@.len() == config.disk_paths@.len(),
        ensures
            r is Ok <==> config.defect() is None,
            r matches Ok(s) ==> s.config == config && s.chunk_store.wf() && s.chunk_store.k
                == config.k() && s.chunk_store.coder.c() == config.disk_failures
                && s.chunk_store.num_disks == config.n() && s.chunk_store.compression_level
                == config.compression_level,
            r matches Ok(s) ==> forall|i: int|
                0 <= i < s.chunk_store.disks@.len() ==> (#[trigger] s.chunk_store.disks@[i]).path@
                    == config.disk_paths@[i]@ && s.chunk_store.disks@[i].cluster_id == ids@[i]
                    && !s.chunk_store.disks@[i].failed(),
            r matches Ok(s) ==> s.meta_store@.len() == (if config.metadata_replicas == 0
                || config.metadata_replicas >= config.n() {
                config.n()
            } else {
                config.metadata_replicas as nat
            }) && forall|i: int|
                0 <= i < s.meta_store@.len() ==> !(#[trigger] s.meta_store@[i]),
            r matches Err(e) ==> e matches StorageError::Transient(m) && m@
                == config.defect().unwrap(),
    {
        let chunk_store = match ChunkStore::new(&config, ids) {
            Ok(store) => store,
            Err(e) => {
                return Err(e);
            },
        };
        let meta_store = match ReplicatedMetaStore::new(&config) {
            Ok(store) => store,
            Err(e) => {
                return Err(e);
            },
        };
        Ok(ObjectStorage { config, chunk_store, meta_store })
    }

    /// The sizes of the entries that each disk has of the chunks of an object.
    pub fn entry_sizes(&self, meta: &VersionMeta) -> (r: Vec<u64>)
        requires
            self.chunk_store.wf(),
        ensures
            r@ == chunk_entry_sizes(
                *meta,
                self.chunk_store.k as nat,
                self.chunk_store.num_disks as nat,
            ),
    {
        let n: usize = self.chunk_store.num_disks;
        let k: usize = self.chunk_store.k;
        let total: usize = meta.chunk_checksums.len();
        let mut r: Vec<u64> = Vec::new();
        let mut i: usize = 0;
        let recorded: bool = meta.compressed_sizes.len() == total;
        while i < total
            invariant
                i <= total,
                total == meta.chunk_checksums@.len(),
                recorded == (meta.compressed_sizes@.len() == total),
                self.chunk_store.wf(),
                n == self.chunk_store.num_disks,
                k == self.chunk_store.k,
                r@.len() == i,
                forall|j: int|
                    0 <= j < i ==> #[trigger] r@[j] == chunk_entry_sizes(*meta, k as nat, n as nat)[j],
            decreases total - i,
        {
            let size: u64 = if recorded {
                let compressed: u64 = meta.compressed_sizes[i] as u64;
                let disks: u64 = n as u64;
                assert(disks == n);
                24 + compressed / disks
            } else {
                match chunk_len(meta, i) {
                    Some(len) => entry_size(len, k),
                    None => 24,
                }
            };
            r.push(size);
            i += 1;
        }
        assert(r@ =~= chunk_entry_sizes(*meta, k as nat, n as nat));
        r
    }

    /// Get the full object data from what was read of its chunks.
    pub fn get(&self, meta: &VersionMeta, results: &[Vec<StorageResult<Vec<u8>>>]) -> (r:
        StorageResult<ReadChunks>)
        requires
            self.chunk_store.wf(),
            results@.len() == meta.chunk_checksums@.len(),
            forall|j: int|
                0 <= j < results@.len() ==> (#[trigger] results@[j])@.len()
                    == self.chunk_store.num_disks,
        ensures
            is_get_result(self.chunk_store, *meta, results@, r),
    {
        let read = self.chunk_store.read_chunks(meta, 0, meta.chunk_checksums.len(), results);
        proof {
            let k = self.chunk_store.coder.k();
            let c = self.chunk_store.coder.c();
            if read is Err {
                let e = read->Err_0;
                let j = choose|j: int|
                    0 <= j < results@.len() && decoded_range(k, c, *meta, 0, j, results@) is Some
                        && #[trigger] is_chunk_error(k, c, *meta, 0 + j, results@[j]@, e);
                assert(is_chunk_error(k, c, *meta, j, results@[j]@, e));
            }
            assert forall|data: Seq<u8>, shards: Seq<Seq<Seq<u8>>>| #[trigger]
                is_stored(k, c, *meta, data, shards) && all_enough(k, shards, 0, results@) implies
                read is Ok && read.unwrap().data@ == data by {
                let n = chunk_count(data.len()) as int;
                if n > 0 {
                    lemma_chunk_len(data, n - 1);
                }
                assert(chunk_start_in(data.len(), 0) == 0);
                assert(chunk_start_in(data.len(), n) == data.len());
                assert(data.subrange(0, data.len() as int) =~= data);
            }
        }
        read
    }

    /// The chunks that a byte range of an object needs.
    pub fn plan_range(&self, object_key: &str, meta: &VersionMeta, start: u64, end: u64) -> (r:
        StorageResult<RangePlan>)
        ensures
            r is Ok <==> object_key@.len() > 0 && range_defect(
                start,
                end,
                meta.data_size as u64,
            ) is None && (meta.chunk_checksums@.len() == 0 || chunk_index(end as nat)
                < meta.chunk_checksums@.len()),
            r matches Ok(plan) ==> if meta.chunk_checksums@.len() == 0 {
                plan.first == 0 && plan.count == 0 && plan.size == 0
            } else {
                plan.first == chunk_index(start as nat) && plan.first + plan.count
                    == chunk_index(end as nat) + 1 && plan.count > 0 && plan.size == meta.data_size
            },
            r matches Err(e) ==> if object_key@.len() == 0 {
                e matches StorageError::NotFound(m) && m@ == "object key cannot be empty"@
            } else if range_defect(start, end, meta.data_size as u64) is Some {
                e matches StorageError::InvalidRange(m) && m@ == range_defect(
                    start,
                    end,
                    meta.data_size as u64,
                ).unwrap()
            } else {
                e matches StorageError::KvError(m) && m@ == "data size does not match chunk count"@
            },
    {
        match check_key(object_key) {
            Ok(()) => {},
            Err(e) => {
                return Err(e);
            },
        }
        match check_range(start, end, meta.data_size as u64) {
            Ok(()) => {},
            Err(e) => {
                return Err(e);
            },
        }
        if meta.chunk_checksums.len() == 0 {
            return Ok(RangePlan { first: 0, count: 0, size: 0 });
        }
        let first: u64 = start / CHUNK_SIZE_DEFAULT as u64;
        let last: u64 = end / CHUNK_SIZE_DEFAULT as u64;
        if last >= meta.chunk_checksums.len() as u64 {
            return Err(StorageError::KvError("data size does not match chunk count".to_owned()));
        }
        assert(first <= last);
        Ok(
            RangePlan {
                first: first as usize,
                count: (last - first + 1) as usize,
                size: meta.data_size as u64,
            },
        )
    }

    /// Read a byte range of an object, both ends inclusive, from what was read of the chunks that
    /// the range needs. The result is the bytes, the size of the object, and for each chunk that
    /// was read the shards that have to be written back.
    pub fn get_range(
        &self,
        object_key: &str,
        meta: &VersionMeta,
        start: u64,
        end: u64,
        results: &[Vec<StorageResult<Vec<u8>>>],
    ) -> (r: StorageResult<RangeRead>)
        requires
            self.chunk_store.wf(),
            forall|j: int|
                0 <= j < results@.len() ==> (#[trigger] results@[j])@.len()
                    == self.chunk_store.num_disks,
            object_key@.len() > 0 && range_defect(start, end, meta.data_size as u64) is None
                && chunk_index(end as nat) < meta.chunk_checksums@.len() ==> results@.len()
                == chunk_index(end as nat) - chunk_index(start as nat) + 1,
        ensures
            is_range_result(self.chunk_store, object_key@, *meta, start, end, results@, r),
    {
        let plan = match self.plan_range(object_key, meta, start, end) {
            Ok(plan) => plan,
            Err(e) => {
                proof {
                    assert forall|data: Seq<u8>, shards: Seq<Seq<Seq<u8>>>| #[trigger]
                        is_stored(
                            self.chunk_store.coder.k(),
                            self.chunk_store.coder.c(),
                            *meta,
                            data,
                            shards,
                        ) && object_key@.len() > 0 && start <= end < data.len() implies false by {
                        lemma_range_chunks(data.len(), start as int, end as int);
                    }
                }
                return Err(e);
            },
        };
        if plan.count == 0 {
            proof {
                assert forall|data: Seq<u8>, shards: Seq<Seq<Seq<u8>>>| #[trigger]
                    is_stored(
                        self.chunk_store.coder.k(),
                        self.chunk_store.coder.c(),
                        *meta,
                        data,
                        shards,
                    ) && start <= end < data.len() implies false by {
                    lemma_range_chunks(data.len(), start as int, end as int);
                }
            }
            return Ok(RangeRead { data: Vec::new(), size: 0, corrections: Vec::new() });
        }
        let read = match self.chunk_store.read_chunks(meta, plan.first, plan.count, results) {
            Ok(read) => read,
            Err(e) => {
                return Err(e);
            },
        };
        let base: u64 = (plan.first as u64) * (CHUNK_SIZE_DEFAULT as u64);
        let from: u64 = start - base;
        let to: u64 = end - base;
        proof {
            let k = self.chunk_store.coder.k();
            let c = self.chunk_store.coder.c();
            assert forall|data: Seq<u8>, shards: Seq<Seq<Seq<u8>>>| #[trigger]
                is_stored(k, c, *meta, data, shards) && start <= end < data.len() && all_enough(
                    k,
                    shards,
                    chunk_index(start as nat) as int,
                    results@,
                ) implies to < read.data@.len() && read.data@.subrange(from as int, to + 1)
                == data.subrange(start as int, end + 1) by {
                lemma_range_chunks(data.len(), start as int, end as int);
                let a = chunk_start_in(data.len(), plan.first as int);
                let b = chunk_start_in(data.len(), plan.first + plan.count);
                assert(a == base);
                assert(read.data@ == data.subrange(a, b));
                assert(end < b);
                assert(read.data@.subrange(from as int, to + 1) =~= data.subrange(
                    start as int,
                    end + 1,
                ));
            }
        }
        if to >= read.data.len() as u64 {
            return Err(StorageError::KvError("data size does not match chunk count".to_owned()));
        }
        let data = copy_range(read.data.as_slice(), from as usize, to as usize + 1);
        Ok(RangeRead { data, size: plan.size, corrections: read.corrections })
    }
}

/// The value of a metadata key, in any case, of the version that was read. An object that is not
/// there has none.
pub fn get_metadata_value(read: &StorageResult<VersionMeta>, key: &str) -> (r: StorageResult<
    Option<String>,
>)
    ensures
        r is Ok <==> (read matches Err(e) ==> e is NotFound),
        r matches Ok(v) ==> match read {
            Ok(meta) => if meta.metadata@.contains_key(lowercase(key@)) {
                v matches Some(t) && t@ == meta.metadata@[lowercase(key@)]
            } else {
                v is None
            },
            Err(_) => v is None,
        },
        r matches Err(e) ==> *read == StorageResult::<VersionMeta>::Err(e),
{
    match read {
        Ok(meta) => {
            let lower = to_lowercase(key);
            Ok(meta.metadata.get(lower.as_str()))
        },
        Err(StorageError::NotFound(_)) => Ok(None),
        Err(e) => Err(e.clone()),
    }
}

/// The full metadata map of the version that was read. An object that is not there has an empty
/// one.
pub fn get_object_metadata(read: &StorageResult<VersionMeta>) -> (r: StorageResult<MetadataMap>)
    ensures
        r is Ok <==> (read matches Err(e) ==> e is NotFound),
        r matches Ok(m) ==> match read {
            Ok(meta) => m@ == meta.metadata@,
            Err(_) => m@ == Map::<Seq<char>, Seq<char>>::empty(),
        },
        r matches Err(e) ==> *read == StorageResult::<VersionMeta>::Err(e),
{
    match read {
        Ok(meta) => Ok(meta.metadata.clone()),
        Err(StorageError::NotFound(_)) => Ok(MetadataMap::new()),
        Err(e) => Err(e.clone()),
    }
}

/// Whether `b` is `a` with the metadata key `key` set to `value`, modified at `now`.
pub open spec fn with_metadata(
    a: VersionMeta,
    b: VersionMeta,
    key: Seq<char>,
    value: Seq<char>,
    now: Seq<char>,
) -> bool {
    &&& b.version == a.version
    &&& b.chunk_checksums@ == a.chunk_checksums@
    &&& b.checksum == a.checksum
    &&& b.status == a.status
    &&& b.data_size == a.data_size
    &&& b.last_modified@ == now
    &&& b.metadata@ == a.metadata@.insert(key, value).insert("last-modified"@, now)
    &&& b.compression_level == a.compression_level
    &&& b.compressed_sizes@ == a.compressed_sizes@
}

/// Whether `plan` writes the version `meta` with the metadata key `key` set to `value`, modified at
/// `now`.
pub open spec fn sets_value(
    plan: BatchPlan,
    object_key: Seq<char>,
    meta: VersionMeta,
    key: Seq<char>,
    value: Seq<char>,
    now: Seq<char>,
) -> bool {
    exists|m: VersionMeta| #[trigger]
        with_metadata(meta, m, key, value, now) && writes_record(
            plan,
            version_key_of(object_key, meta.version),
            m,
        ) && (fits_record(m) ==> forall|q: VersionMeta| #[trigger]
            is_record_of(record_bytes(m), q) ==> same_meta(q, m))
}

impl ObjectStorage {
    /// Plan setting a metadata value on a version, at the time `now`. The key is stored in lower
    /// case, and the version counts as modified.
    pub fn set_metadata_value_at(
        &self,
        object_key: &str,
        meta: &VersionMeta,
        key: &str,
        value: &str,
        now: &str,
    ) -> (r: StorageResult<BatchPlan>)
        requires
            meta.compression_level matches Some(l) ==> l < i32::MAX,
        ensures
            r is Ok <==> healthy(self.meta_store@).len() > 0,
            r matches Ok(plan) ==> plan.targets@ == healthy(self.meta_store@) && sets_value(
                plan,
                object_key@,
                *meta,
                lowercase(key@),
                value@,
                now@,
            ),
            r matches Err(e) ==> e is NoHealthyDisks,
    {
        let mut changed = meta.clone();
        changed.metadata.insert(to_lowercase(key), owned(value));
        changed.metadata.insert(owned("last-modified"), owned(now));
        changed.last_modified = owned(now);
        assert(with_metadata(*meta, changed, lowercase(key@), value@, now@));
        let record = match serialize_record(&changed) {
            Ok(record) => record,
            Err(e) => {
                return Err(e);
            },
        };
        let mut ops: Vec<(String, Vec<u8>)> = Vec::new();
        ops.push((version_key(object_key, meta.version), record));
        assert(put_pairs(ops@) =~= seq![
            (version_key_of(object_key@, meta.version), record_bytes(changed)),
        ]);
        self.meta_store.write_batch(ops)
    }

    /// Plan setting a metadata value on the latest version of an object, at the time of the call.
    /// `read` is what reading that version gave.
    pub fn set_metadata_value(
        &self,
        object_key: &str,
        read: &StorageResult<VersionMeta>,
        key: &str,
        value: &str,
    ) -> (r: StorageResult<BatchPlan>)
        requires
            read matches Ok(meta) ==> (meta.compression_level matches Some(l) ==> l < i32::MAX),
        ensures
            self.is_value_plan(r, object_key@, *read, lowercase(key@), value@),
    {
        match read {
            Ok(meta) => {
                let now = current_time();
                self.set_metadata_value_at(object_key, meta, key, value, now.as_str())
            },
            Err(e) => Err(e.clone()),
        }
    }

    /// Whether `r` plans setting the metadata key `key` to `value`, at some time, or says why not.
    pub open spec fn is_value_plan(
        &self,
        r: StorageResult<BatchPlan>,
        object_key: Seq<char>,
        read: StorageResult<VersionMeta>,
        key: Seq<char>,
        value: Seq<char>,
    ) -> bool {
        match read {
            Ok(meta) => match r {
                Ok(plan) => healthy(self.meta_store@).len() > 0 && plan.targets@ == healthy(
                    self.meta_store@,
                ) && exists|now: Seq<char>| #[trigger]
                    sets_value(plan, object_key, meta, key, value, now),
                Err(e) => healthy(self.meta_store@).len() == 0 && e is NoHealthyDisks,
            },
            Err(c) => r == StorageResult::<BatchPlan>::Err(c),
        }
    }

    /// Recover a failed metadata disk from a healthy one: check that this can be done.
    pub fn recover_meta_disk(&self, recovering_disk_idx: usize, source_disk_idx: usize) -> (r:
        StorageResult<()>)
        ensures
            r is Ok <==> recovering_disk_idx != source_disk_idx && source_disk_idx
                < self.meta_store@.len() && !self.meta_store@[source_disk_idx as int]
                && recovering_disk_idx < self.meta_store@.len(),
            r matches Err(e) ==> e matches StorageError::Transient(m) && m@ == recovery_defect(
                self.meta_store@,
                recovering_disk_idx,
                source_disk_idx,
            ),
    {
        self.meta_store.recover_disk(recovering_disk_idx, source_disk_idx)
    }

    /// Get the number of healthy metadata disks.
    pub fn healthy_meta_disk_count(&self) -> (r: usize)
        ensures
            r == healthy(self.meta_store@).len(),
    {
        self.meta_store.healthy_disk_count()
    }

    /// Get the total number of metadata replica disks.
    pub fn total_meta_disk_count(&self) -> (r: usize)
        ensures
            r == self.meta_store@.len(),
    {
        self.meta_store.total_disk_count()
    }

    /// Check if the metadata layer is in a safe state.
    pub fn is_meta_safe(&self) -> (r: bool)
        ensures
            r == (healthy(self.meta_store@).len() > self.meta_store@.len() / 2),
    {
        self.meta_store.is_safe()
    }

    /// Whether the data of a version is fully on disk: every disk has a mega-file, of the length
    /// that the entries of all chunks make. An object without chunks has no mega-files.
    pub fn is_data_complete(&self, meta: &VersionMeta, file_lens: &[Option<u64>]) -> (r: bool)
        requires
            self.chunk_store.wf(),
            file_lens@.len() == self.chunk_store.num_disks,
        ensures
            r == (meta.chunk_checksums@.len() == 0 || forall|i: int|
                0 <= i < file_lens@.len() ==> ((#[trigger] file_lens@[i]) matches Some(len) && len
                    == entry_offset_of(
                    chunk_entry_sizes(
                        *meta,
                        self.chunk_store.k as nat,
                        self.chunk_store.num_disks as nat,
                    ),
                    meta.chunk_checksums@.len() as int,
                ))),
    {
        if meta.chunk_checksums.len() == 0 {
            return true;
        }
        let sizes = self.entry_sizes(meta);
        let expected: u64 = match entry_offset(sizes.as_slice(), sizes.len()) {
            Some(n) => n,
            None => {
                assert(!(file_lens@[0] matches Some(len) && len == entry_offset_of(
                    sizes@,
                    sizes@.len() as int,
                )));
                return false;
            },
        };
        let mut i: usize = 0;
        while i < file_lens.len()
            invariant
                i <= file_lens@.len(),
                meta.chunk_checksums@.len() > 0,
                expected == entry_offset_of(
                    chunk_entry_sizes(
                        *meta,
                        self.chunk_store.k as nat,
                        self.chunk_store.num_disks as nat,
                    ),
                    meta.chunk_checksums@.len() as int,
                ),
                forall|j: int|
                    0 <= j < i ==> ((#[trigger] file_lens@[j]) matches Some(len) && len
                        == expected),
            decreases file_lens.len() - i,
        {
            let complete: bool = match file_lens[i] {
                Some(len) => len == expected,
                None => false,
            };
            if !complete {
                assert(!(file_lens@[i as int] matches Some(len) && len == expected));
                return false;
            }
            i += 1;
        }
        true
    }
}

/// What startup does with a version.
#[derive(Debug, Clone, Copy, PartialEq, Eq, Structural)]
pub enum RecoveryAction {
    /// Leave it.
    Keep,
    /// Commit it.
    Promote,
    /// Delete it.
    Abandon,
}

/// What startup does with a version: an in-progress write is promoted if its data is fully on disk
/// and abandoned otherwise.
pub open spec fn recovery_of(status: VersionStatus, complete: bool) -> RecoveryAction {
    if status != VersionStatus::Pending {
        RecoveryAction::Keep
    } else if complete {
        RecoveryAction::Promote
    } else {
        RecoveryAction::Abandon
    }
}

/// What startup does with a version.
pub fn recovery_action(meta: &VersionMeta, data_complete: bool) -> (r: RecoveryAction)
    ensures
        r == recovery_of(meta.status, data_complete),
        // Only a version whose write is in progress is touched.
        meta.status == VersionStatus::Committed ==> r == RecoveryAction::Keep,
        meta.status == VersionStatus::Deleted ==> r == RecoveryAction::Keep,
        meta.status == VersionStatus::Pending ==> r == (if data_complete {
            RecoveryAction::Promote
        } else {
            RecoveryAction::Abandon
        }),
{
    if meta.status != VersionStatus::Pending {
        RecoveryAction::Keep
    } else if data_complete {
        RecoveryAction::Promote
    } else {
        RecoveryAction::Abandon
    }
}

/// Whether an entry is a committed version of an object of the bucket `name`.
pub open spec fn is_committed_in_bucket(entry: (String, VersionMeta), name: Seq<char>) -> bool {
    entry.1.status == VersionStatus::Committed && (name + "/"@).is_prefix_of(
        object_key_in(entry.0@),
    )
}

/// The number of committed versions of objects of the bucket `name` among the first `n` entries.
pub open spec fn committed_in_bucket(
    entries: Seq<(String, VersionMeta)>,
    name: Seq<char>,
    n: int,
) -> nat
    decreases n,
{
    if n <= 0 {
        0
    } else if is_committed_in_bucket(entries[n - 1], name) {
        committed_in_bucket(entries, name, n - 1) + 1
    } else {
        committed_in_bucket(entries, name, n - 1)
    }
}

pub proof fn lemma_committed_in_bucket(entries: Seq<(String, VersionMeta)>, name: Seq<char>, n: int)
    requires
        0 <= n <= entries.len(),
    ensures
        committed_in_bucket(entries, name, n) <= n,
        committed_in_bucket(entries, name, n) == 0 <==> forall|i: int|
            0 <= i < n ==> !is_committed_in_bucket(#[trigger] entries[i], name),
    decreases n,
{
    if n > 0 {
        lemma_committed_in_bucket(entries, name, n - 1);
        if is_committed_in_bucket(entries[n - 1], name) {
            assert(!(forall|i: int|
                0 <= i < n ==> !is_committed_in_bucket(#[trigger] entries[i], name)));
        }
    }
}

/// The number of committed versions of objects of the bucket `name` among `entries`. Pending and
/// deleted versions do not count.
pub fn count_committed(entries: &[(String, VersionMeta)], name: &str) -> (r: usize)
    ensures
        r == committed_in_bucket(entries@, name@, entries@.len() as int),
        r == 0 <==> forall|i: int|
            0 <= i < entries@.len() ==> !is_committed_in_bucket(#[trigger] entries@[i], name@),
{
    let prefix = bucket_prefix(name);
    let mut r: usize = 0;
    let mut i: usize = 0;
    while i < entries.len()
        invariant
            i <= entries@.len(),
            prefix@ == name@ + "/"@,
            r == committed_in_bucket(entries@, name@, i as int),
        decreases entries.len() - i,
    {
        proof {
            lemma_committed_in_bucket(entries@, name@, i as int);
        }
        if entries[i].1.status == VersionStatus::Committed {
            let object_key = object_key_of(entries[i].0.as_str());
            if strip_prefix(object_key.as_str(), prefix.as_str()).is_some() {
                r += 1;
            }
        }
        i += 1;
    }
    proof {
        lemma_committed_in_bucket(entries@, name@, entries@.len() as int);
    }
    r
}

/// Check that a bucket is empty, from the number of committed versions of its objects.
pub fn check_bucket_empty(name: &str, versions_found: usize) -> (r: StorageResult<()>)
    ensures
        r is Ok <==> versions_found == 0,
        r matches Err(e) ==> e matches StorageError::Transient(m) && m@ == "bucket '"@ + name@
            + "' is not empty, cannot delete"@,
{
    if versions_found == 0 {
        Ok(())
    } else {
        Err(StorageError::Transient(join3("bucket '", name, "' is not empty, cannot delete")))
    }
}

/// The prefix of the keys of a bucket's objects.
pub fn bucket_prefix(name: &str) -> (r: String)
    ensures
        r@ == name@ + "/"@,
{
    join2(name, "/")
}

/// The directory and number of the mega-files of a committed version.
pub open spec fn is_referenced(
    entries: Seq<(String, VersionMeta)>,
    dir: Seq<char>,
    version: u64,
) -> bool {
    exists|i: int|
        0 <= i < entries.len() && #[trigger] refers_to(entries[i], dir, version)
}

/// Whether an entry is a committed version with its mega-files in `dir` under the number
/// `version`.
pub open spec fn refers_to(entry: (String, VersionMeta), dir: Seq<char>, version: u64) -> bool {
    entry.1.status == VersionStatus::Committed && entry.1.version == version && safe_key_of(
        object_key_in(entry.0@),
    ) == dir
}

/// The version number in the name of a mega-file.
pub open spec fn version_in_name(name: Seq<char>) -> Option<u64> {
    if "v"@.is_prefix_of(name) {
        parsed(name.skip("v"@.len() as int), 10)
    } else {
        None
    }
}

/// Whether garbage collection removes a file: it is the mega-file of a version that no committed
/// version refers to.
pub fn is_orphan(entries: &[(String, VersionMeta)], dir: &str, file_name: &str) -> (r: bool)
    ensures
        r == (version_in_name(file_name@) matches Some(v) && !is_referenced(entries@, dir@, v)),
{
    let version: u64 = match strip_prefix(file_name, "v") {
        Some(digits) => match parse_u64(digits.as_str()) {
            Some(v) => v,
            None => {
                return false;
            },
        },
        None => {
            return false;
        },
    };
    let mut i: usize = 0;
    while i < entries.len()
        invariant
            i <= entries@.len(),
            forall|j: int| 0 <= j < i ==> !#[trigger] refers_to(entries@[j], dir@, version),
            version_in_name(file_name@) == Some(version),
        decreases entries.len() - i,
    {
        if entries[i].1.status == VersionStatus::Committed && entries[i].1.version == version {
            let object_key = object_key_of(entries[i].0.as_str());
            if same_text(safe_key(object_key.as_str()).as_str(), dir) {
                assert(refers_to(entries@[i as int], dir@, version));
                return false;
            }
        }
        i += 1;
    }
    true
}

proof fn lemma_digits_behind_zeros(s: Seq<char>, n: nat)
    ensures
        digits_value(Seq::new(n, |i: int| '0') + s, 10) == digits_value(s, 10),
    decreases s.len(), n,
{
    let pad = Seq::new(n, |i: int| '0');
    if s.len() > 0 {
        assert((pad + s).drop_last() =~= pad + s.drop_last());
        lemma_digits_behind_zeros(s.drop_last(), n);
    } else if n > 0 {
        let shorter = Seq::new((n - 1) as nat, |i: int| '0');
        assert((pad + s).drop_last() =~= shorter + s);
        assert((pad + s).last() == '0');
        lemma_digits_behind_zeros(s, (n - 1) as nat);
        assert(digit_value('0', 10) == Some(0nat));
    } else {
        assert(pad + s =~= s);
    }
}

proof fn lemma_version_in_name(version: u64)
    ensures
        version_in_name(version_file_of(version)) == Some(version),
{
    let digits = decimal(version as nat);
    let padded = zero_padded(digits, 8);
    let name = version_file_of(version);
    lemma_decimal_digits(version as nat);
    if digits.len() < 8 {
        lemma_digits_behind_zeros(digits, (8 - digits.len()) as nat);
    }
    assert(digits_value(padded, 10) == Some(version as nat));
    assert(padded[0] != '+');
    assert(name.subrange(0, "v"@.len() as int) =~= "v"@);
    assert(name.skip("v"@.len() as int) =~= padded);
}

/// Garbage collection keeps the mega-files of every committed version.
pub proof fn law_committed_data_is_kept(
    entries: Seq<(String, VersionMeta)>,
    object_key: Seq<char>,
    version: u64,
    i: int,
)
    requires
        0 <= i < entries.len(),
        entries[i].0@ == version_key_of(object_key, version),
        entries[i].1.version == version,
        entries[i].1.status == VersionStatus::Committed,
    ensures
        version_in_name(version_file_of(version)) == Some(version),
        is_referenced(entries, safe_key_of(object_key), version),
{
    lemma_version_in_name(version);
    law_object_key_is_found_again(object_key, version);
    assert(refers_to(entries[i], safe_key_of(object_key), version));
}

/// Garbage collection reclaims the mega-files of a version that is not committed.
pub proof fn law_deleted_data_is_reclaimed(
    entries: Seq<(String, VersionMeta)>,
    object_key: Seq<char>,
    version: u64,
)
    requires
        forall|i: int|
            0 <= i < entries.len() && (#[trigger] entries[i]).1.status == VersionStatus::Committed
                && entries[i].1.version == version ==> object_key_in(entries[i].0@) != object_key,
    ensures
        version_in_name(version_file_of(version)) == Some(version),
        !is_referenced(entries, safe_key_of(object_key), version),
{
    lemma_version_in_name(version);
    if is_referenced(entries, safe_key_of(object_key), version) {
        let i = choose|i: int|
            0 <= i < entries.len() && #[trigger] refers_to(
                entries[i],
                safe_key_of(object_key),
                version,
            );
        law_directory_names_are_distinct(object_key_in(entries[i].0@), object_key);
    }
}

/// The place of a version's mega-file on the disk at `path`, when `area` is the directory of that
/// disk that holds it.
pub open spec fn mega_file_path_of(
    path: Seq<char>,
    area: Seq<char>,
    object_key: Seq<char>,
    version: u64,
) -> Seq<char> {
    below(below(below(path, area), safe_key_of(object_key)), version_file_of(version))
}

proof fn lemma_mega_file_path(path: Seq<char>, area: Seq<char>, object_key: Seq<char>, version: u64)
    requires
        area.len() > 0,
        area.last() != '/',
        object_key.len() > 0,
    ensures
        mega_file_path_of(path, area, object_key, version) == below(path, area) + "/"@
            + safe_key_of(object_key) + "/"@ + version_file_of(version),
{
    let base = below(path, area);
    let dir = safe_key_of(object_key);
    assert(base.last() == area.last());
    assert(dir.len() > 0);
    lemma_safe_key_has_no_slash(object_key, dir.len() - 1);
    assert((base + "/"@ + dir).last() == dir.last());
}

/// No two versions share a mega-file, so that a write of one object changes no data of another.
pub proof fn law_versions_have_their_own_files(
    path: Seq<char>,
    area: Seq<char>,
    a: Seq<char>,
    v: u64,
    b: Seq<char>,
    w: u64,
)
    requires
        area.len() > 0,
        area.last() != '/',
        a.len() > 0,
        b.len() > 0,
        mega_file_path_of(path, area, a, v) == mega_file_path_of(path, area, b, w),
    ensures
        a == b,
        v == w,
{
    reveal_strlit("/");
    lemma_mega_file_path(path, area, a, v);
    lemma_mega_file_path(path, area, b, w);
    let full = mega_file_path_of(path, area, a, v);
    let x = safe_key_of(a);
    let y = safe_key_of(b);
    let start = below(path, area).len() as int + 1;
    assert(full[start + x.len()] == '/');
    assert(full[start + y.len()] == '/');
    if x.len() < y.len() {
        assert(full[start + x.len()] == y[x.len() as int]);
        lemma_safe_key_has_no_slash(b, x.len() as int);
    }
    if y.len() < x.len() {
        assert(full[start + y.len()] == x[y.len() as int]);
        lemma_safe_key_has_no_slash(a, y.len() as int);
    }
    assert(x =~= full.subrange(start, start + x.len()));
    assert(y =~= full.subrange(start, start + x.len()));
    law_directory_names_are_distinct(a, b);
    assert(version_file_of(v) =~= full.skip(start + x.len() + 1));
    assert(version_file_of(w) =~= full.skip(start + x.len() + 1));
    lemma_version_in_name(v);
    lemma_version_in_name(w);
}

/// A write whose mega-files are all there counts as fully on disk, so that startup promotes it.
pub proof fn law_written_data_is_complete(
    k: nat,
    c: nat,
    meta: VersionMeta,
    data: Seq<u8>,
    shards: Seq<Seq<Seq<u8>>>,
    files: Seq<Seq<u8>>,
    i: int,
)
    requires
        k > 0,
        is_written(k, c, meta, data, shards, files),
        0 <= i < files.len(),
    ensures
        files[i].len() == entry_offset_of(
            chunk_entry_sizes(meta, k, k + c),
            meta.chunk_checksums@.len() as int,
        ),
{
    law_written_file_len(k, c, meta, data, shards, files, i);
}

fn entry_size(len: usize, k: usize) -> (r: u64)
    requires
        k > 0,
    ensures
        r == (24 + shard_size_of(len as nat, k as nat)) as u64,
{
    proof {
        lemma_shard_size(len as nat, k as nat);
    }
    let q: u128 = (len as u128 + (k as u128 - 1)) / (k as u128);
    let size: u128 = if q % 2 == 0 {
        q
    } else {
        q + 1
    };
    assert(size == shard_size_of(len as nat, k as nat));
    (24 + size) as u64
}

proof fn lemma_range_chunks(len: nat, start: int, end: int)
    requires
        0 <= start <= end < len,
    ensures
        chunk_count(len) > 0,
        chunk_index(end as nat) < chunk_count(len),
        chunk_index(start as nat) * CHUNK_SIZE_DEFAULT <= start,
        chunk_start_in(len, chunk_index(start as nat) as int) == chunk_index(start as nat)
            * CHUNK_SIZE_DEFAULT,
        end < chunk_start_in(len, chunk_index(end as nat) as int + 1),
{
}

/// Reading a whole object corrects, of every chunk, every shard that could not be read, and no
/// other.
pub proof fn law_get_corrects_every_lost_shard(
    store: ChunkStore,
    meta: VersionMeta,
    results: Seq<Vec<StorageResult<Vec<u8>>>>,
    r: StorageResult<ReadChunks>,
    j: int,
    i: int,
)
    requires
        store.wf(),
        is_get_result(store, meta, results, r),
        r is Ok,
        0 <= j < results.len(),
        results[j]@.len() == store.num_disks,
        0 <= i < store.num_disks,
    ensures
        r.unwrap().corrections@.len() == results.len(),
        results[j]@[i] is Err ==> corrects(
            r.unwrap().corrections@[j]@,
            i,
            decoded_shards(store.coder.k(), store.coder.c(), read_shards(results[j]@))[i],
        ),
        results[j]@[i] is Ok ==> !touches(r.unwrap().corrections@[j]@, i),
{
    let all = decoded_shards(store.coder.k(), store.coder.c(), read_shards(results[j]@));
    let corrections = r.unwrap().corrections@[j]@;
    assert(correction_pairs(corrections) == corrections_of(
        read_shards(results[j]@),
        all,
        store.num_disks as int,
    ));
    lemma_corrections(results[j]@, all, corrections);
}

/// Reading a byte range of an object corrects, of every chunk that it needs, every shard that could
/// not be read, and no other.
pub proof fn law_range_corrects_every_lost_shard(
    store: ChunkStore,
    object_key: Seq<char>,
    meta: VersionMeta,
    start: u64,
    end: u64,
    results: Seq<Vec<StorageResult<Vec<u8>>>>,
    r: StorageResult<RangeRead>,
    j: int,
    i: int,
)
    requires
        store.wf(),
        is_range_result(store, object_key, meta, start, end, results, r),
        r is Ok,
        meta.chunk_checksums@.len() > 0,
        0 <= j < results.len(),
        results[j]@.len() == store.num_disks,
        0 <= i < store.num_disks,
    ensures
        r.unwrap().corrections@.len() == results.len(),
        results[j]@[i] is Err ==> corrects(
            r.unwrap().corrections@[j]@,
            i,
            decoded_shards(store.coder.k(), store.coder.c(), read_shards(results[j]@))[i],
        ),
        results[j]@[i] is Ok ==> !touches(r.unwrap().corrections@[j]@, i),
{
    let all = decoded_shards(store.coder.k(), store.coder.c(), read_shards(results[j]@));
    let corrections = r.unwrap().corrections@[j]@;
    assert(correction_pairs(corrections) == corrections_of(
        read_shards(results[j]@),
        all,
        store.num_disks as int,
    ));
    lemma_corrections(results[j]@, all, corrections);
}

/// A byte range is answered exactly where it is one of the object: it starts no later than it ends,
/// and it ends before the object does.
pub proof fn law_range_is_within_the_object(start: u64, end: u64, size: u64)
    ensures
        range_defect(start, end, size) is None <==> start <= end < size,
{
}

/// Startup touches no version but those whose write is in progress: whatever is missing of the data
/// of a committed version, its record and all that it says stays.
pub proof fn law_startup_keeps_settled_versions(status: VersionStatus, complete: bool)
    requires
        status == VersionStatus::Committed || status == VersionStatus::Deleted,
    ensures
        recovery_of(status, complete) == RecoveryAction::Keep,
{
}

/// Setting one metadata value of a version leaves every other key as it was, there or not there,
/// and leaves all that describes the data.
pub proof fn law_other_metadata_is_kept(
    before: VersionMeta,
    after: VersionMeta,
    key: Seq<char>,
    value: Seq<char>,
    now: Seq<char>,
    other: Seq<char>,
)
    requires
        with_metadata(before, after, key, value, now),
    ensures
        other != key && other != "last-modified"@ ==> (after.metadata@.contains_key(other)
            <==> before.metadata@.contains_key(other)) && (before.metadata@.contains_key(other)
            ==> after.metadata@[other] == before.metadata@[other]),
        key != "last-modified"@ ==> after.metadata@.contains_key(key) && after.metadata@[key]
            == value,
        after.metadata@.contains_key("last-modified"@) && after.metadata@["last-modified"@] == now,
        after.last_modified@ == now,
        after.version == before.version,
        after.status == before.status,
        after.checksum == before.checksum,
        after.data_size == before.data_size,
        after.chunk_checksums@ == before.chunk_checksums@,
        after.compression_level == before.compression_level,
        after.compressed_sizes@ == before.compressed_sizes@,
{
}

/// A value that is set under one metadata key is still read after a value is set under another, and
/// so is the other value: what is read back between and after the two writes is what was written.
pub proof fn law_values_under_two_keys_are_both_read(
    object_key: Seq<char>,
    before: VersionMeta,
    first: BatchPlan,
    between: VersionMeta,
    second: BatchPlan,
    after: VersionMeta,
    k1: Seq<char>,
    v1: Seq<char>,
    now1: Seq<char>,
    k2: Seq<char>,
    v2: Seq<char>,
    now2: Seq<char>,
)
    requires
        sets_value(first, object_key, before, k1, v1, now1),
        sets_value(second, object_key, between, k2, v2, now2),
        is_record_of(put_pairs(first.puts@)[0].1, between),
        is_record_of(put_pairs(second.puts@)[0].1, after),
        // What a version holds fits into its record.
        forall|m: VersionMeta| #[trigger]
            with_metadata(before, m, k1, v1, now1) ==> fits_record(m),
        forall|m: VersionMeta| #[trigger]
            with_metadata(between, m, k2, v2, now2) ==> fits_record(m),
        k1 != k2,
        k1 != "last-modified"@,
        k2 != "last-modified"@,
    ensures
        after.metadata@.contains_key(k1) && after.metadata@[k1] == v1,
        after.metadata@.contains_key(k2) && after.metadata@[k2] == v2,
        forall|other: Seq<char>|
            other != k1 && other != k2 && other != "last-modified"@ && #[trigger]
                before.metadata@.contains_key(other) ==> after.metadata@.contains_key(other)
                && after.metadata@[other] == before.metadata@[other],
{
    let a = choose|m: VersionMeta| #[trigger]
        with_metadata(before, m, k1, v1, now1) && writes_record(
            first,
            version_key_of(object_key, before.version),
            m,
        ) && (fits_record(m) ==> forall|q: VersionMeta| #[trigger]
            is_record_of(record_bytes(m), q) ==> same_meta(q, m));
    let b = choose|m: VersionMeta| #[trigger]
        with_metadata(between, m, k2, v2, now2) && writes_record(
            second,
            version_key_of(object_key, between.version),
            m,
        ) && (fits_record(m) ==> forall|q: VersionMeta| #[trigger]
            is_record_of(record_bytes(m), q) ==> same_meta(q, m));
    assert(put_pairs(first.puts@)[0].1 == record_bytes(a));
    assert(put_pairs(second.puts@)[0].1 == record_bytes(b));
    assert(between.metadata@ == a.metadata@);
    assert(after.metadata@ == b.metadata@);
    law_other_metadata_is_kept(before, a, k1, v1, now1, k1);
    law_other_metadata_is_kept(between, b, k2, v2, now2, k1);
    assert forall|other: Seq<char>|
        other != k1 && other != k2 && other != "last-modified"@ && #[trigger]
            before.metadata@.contains_key(other) implies after.metadata@.contains_key(other)
        && after.metadata@[other] == before.metadata@[other] by {
        law_other_metadata_is_kept(before, a, k1, v1, now1, other);
        law_other_metadata_is_kept(between, b, k2, v2, now2, other);
    }
}

/// A bucket that holds a committed version of an object is not empty, whatever the key of the
/// object in the bucket is, slashes included.
pub proof fn law_bucket_with_an_object_is_not_empty(
    entries: Seq<(String, VersionMeta)>,
    name: Seq<char>,
    key: Seq<char>,
    version: u64,
    i: int,
)
    requires
        0 <= i < entries.len(),
        entries[i].0@ == version_key_of(name + "/"@ + key, version),
        entries[i].1.status == VersionStatus::Committed,
    ensures
        committed_in_bucket(entries, name, entries.len() as int) > 0,
{
    let object_key = name + "/"@ + key;
    law_object_key_is_found_again(object_key, version);
    assert(object_key.subrange(0, (name + "/"@).len() as int) =~= name + "/"@);
    assert(is_committed_in_bucket(entries[i], name));
    lemma_committed_in_bucket(entries, name, entries.len() as int);
}

/// A bucket is empty where no committed version is that of one of its objects: objects of other
/// buckets, also of one whose name starts alike, and versions that are pending or deleted do not
/// count.
pub proof fn law_bucket_without_objects_is_empty(
    entries: Seq<(String, VersionMeta)>,
    keys: Seq<Seq<char>>,
    name: Seq<char>,
)
    requires
        keys.len() == entries.len(),
        forall|i: int|
            0 <= i < entries.len() ==> (#[trigger] entries[i]).0@ == version_key_of(
                keys[i],
                entries[i].1.version,
            ),
        forall|i: int, key: Seq<char>|
            0 <= i < entries.len() && (#[trigger] entries[i]).1.status == VersionStatus::Committed
                ==> keys[i] != #[trigger] (name + "/"@ + key),
    ensures
        committed_in_bucket(entries, name, entries.len() as int) == 0,
{
    assert forall|i: int| 0 <= i < entries.len() implies !is_committed_in_bucket(
        #[trigger] entries[i],
        name,
    ) by {
        law_object_key_is_found_again(keys[i], entries[i].1.version);
        if is_committed_in_bucket(entries[i], name) {
            let p = name + "/"@;
            assert(keys[i] =~= p + keys[i].skip(p.len() as int));
        }
    }
    lemma_committed_in_bucket(entries, name, entries.len() as int);
}

/// The chunk that holds a byte of an object: it starts no later than the byte and ends behind it.
pub proof fn law_byte_is_in_its_chunk(pos: nat)
    ensures
        chunk_index(pos) * CHUNK_SIZE_DEFAULT <= pos < (chunk_index(pos) + 1) * CHUNK_SIZE_DEFAULT,
{
}

/// The entries of an object that was written without compression are found where they are, also by
/// a record that does not hold the sizes of the chunks.
pub proof fn law_entries_are_found_without_recorded_sizes(
    k: nat,
    c: nat,
    meta: VersionMeta,
    bare: VersionMeta,
    data: Seq<u8>,
    shards: Seq<Seq<Seq<u8>>>,
    files: Seq<Seq<u8>>,
)
    requires
        k > 0,
        is_written(k, c, meta, data, shards, files),
        meta.compression_level is None,
        bare.data_size == meta.data_size,
        bare.chunk_checksums@ == meta.chunk_checksums@,
        bare.compressed_sizes@.len() == 0,
    ensures
        chunk_entry_sizes(bare, k, k + c) == chunk_entry_sizes(meta, k, k + c),
{
    let a = chunk_entry_sizes(bare, k, k + c);
    let b = chunk_entry_sizes(meta, k, k + c);
    assert(a.len() == b.len());
    assert forall|m: int| 0 <= m < a.len() implies a[m] == b[m] by {
        let chunk = chunk_of(data, m);
        lemma_entry_size(k, c, meta, data, shards, files, 0, m);
        lemma_chunk_len(data, m);
        assert(is_chunk_encoding(k, c, meta.compression_level, chunk, shards[m]));
        let payload = choose|payload: Seq<u8>|
            is_payload(meta.compression_level, chunk, payload) && #[trigger] are_shards_of_payload(
                k,
                c,
                payload,
                shards[m],
            );
        assert(payload == chunk);
        let pieces = data_shards_of(payload, k);
        assert(shards[m][0] == pieces[0]);
        assert(pieces[0].len() == shard_size_of(payload.len(), k));
    }
    assert(a =~= b);
}

} // verus!
