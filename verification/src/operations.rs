//! Whole operations of the object store: what they plan, from what was read for them.
use crate::api::{
    bucket_prefix, check_bucket_empty, check_delete, check_key, count_committed,
    get_metadata_value, is_orphan, recovery_action, ObjectStorage, RecoveryAction,
};
use crate::bytes::copy_range;
use crate::chunk_store::RecoveredChunk;
use crate::clock::current_time;
use crate::disk::{BucketMeta, VersionMeta, VersionStatus};
use crate::errors::{StorageError, StorageResult};
use crate::metadata::{object_key_of, BatchPlan};
use crate::object_read::CHUNK_SIZE_DEFAULT;
use crate::object_write::{ObjectWriter, WrittenObject};
use crate::text::join2;
use vstd::prelude::*;

verus! {

use crate::api::{
    chunk_entry_sizes, is_committed_in_bucket, is_referenced,
    law_bucket_with_an_object_is_not_empty, law_committed_data_is_kept,
    law_deleted_data_is_reclaimed, law_other_metadata_is_kept, lemma_committed_in_bucket,
    recovery_of, sets_value, version_in_name, with_metadata,
};
use crate::chunk_store::{
    correction_pairs, corrections_of, is_read_of, read_shards, ChunkStore,
};
use crate::disk::{
    entry_offset_of, intact_shard_at, safe_key_of, same_meta, sizes_before, version_file_of, Disk,
};
use crate::erasure::{decoded_shards, survivors};
use crate::metadata::{
    bucket_key_of, healthy, law_object_key_is_found_again, object_key_in, put_pairs, texts,
    version_key_of,
};
use crate::object_read::{
    all_enough, chunk_count, chunk_end, chunk_of, decoded_chunk, enough_shards, is_chunk_error,
    is_stored, lemma_chunk_len,
};
use crate::object_write::{
    final_files, is_first_write_error, is_fresh_write, is_written, law_written_file_len,
    law_written_shard_is_read_back, lemma_entry_size, lemma_full_chunk_failure,
    lemma_written_shard_count, writes_chunks,
};
use crate::record::{fits_record, is_record, is_record_of, record_bytes};
use crate::text::{law_only_digits_are_read_as_a_number, lowercase};
use crate::versions::{is_record_error, marks_deleted, writes_record};
use vstd::utf8::encode_utf8;

/// Whether no object of the bucket `name` has a committed version among `entries`.
pub open spec fn is_empty_bucket(entries: Seq<(String, VersionMeta)>, name: Seq<char>) -> bool {
    forall|i: int|
        0 <= i < entries.len() ==> !is_committed_in_bucket(#[trigger] entries[i], name)
}

/// What startup does with a version of an object.
pub struct RecoveryStep {
    pub object_key: String,
    pub version: u64,
    pub action: RecoveryAction,
}

/// Where the part of a chunk that is in a byte range starts in the chunk.
pub open spec fn part_start(idx: int, len: int, start: int) -> int {
    let from = start - idx * CHUNK_SIZE_DEFAULT;
    if from < 0 {
        0
    } else if from > len {
        len
    } else {
        from
    }
}

/// Where the part of a chunk that is in a byte range ends in the chunk, for a range up to `end`.
pub open spec fn part_end(idx: int, len: int, start: int, end: int) -> int {
    let to = part_start(idx, len, end + 1);
    if to < part_start(idx, len, start) {
        part_start(idx, len, start)
    } else {
        to
    }
}

/// The part of chunk `idx` that is in the byte range from `start` to `end`, both ends inclusive.
pub open spec fn part_of(chunk: Seq<u8>, idx: int, start: int, end: int) -> Seq<u8> {
    chunk.subrange(
        part_start(idx, chunk.len() as int, start),
        part_end(idx, chunk.len() as int, start, end),
    )
}

/// The parts of the `n` chunks from `first` on that are in a byte range, one behind the other.
pub open spec fn parts_in_range(data: Seq<u8>, first: int, n: nat, start: int, end: int) -> Seq<u8>
    decreases n,
{
    if n == 0 {
        Seq::empty()
    } else {
        parts_in_range(data, first, (n - 1) as nat, start, end) + part_of(
            chunk_of(data, first + n - 1),
            first + n - 1,
            start,
            end,
        )
    }
}

proof fn lemma_parts_in_range(data: Seq<u8>, first: int, n: nat, start: int, end: int)
    requires
        0 <= start <= end < data.len(),
        0 <= first * CHUNK_SIZE_DEFAULT <= start < (first + 1) * CHUNK_SIZE_DEFAULT,
        first + n <= chunk_count(data.len()),
        n > 0,
    ensures
        ({
            let stop = chunk_end(data.len(), first + n - 1);
            parts_in_range(data, first, n, start, end) == data.subrange(
                start,
                if end + 1 < stop {
                    end + 1
                } else {
                    stop
                },
            )
        }),
    decreases n,
{
    let idx = first + n - 1;
    lemma_chunk_len(data, idx);
    let chunk = chunk_of(data, idx);
    let stop = chunk_end(data.len(), idx);
    let part = part_of(chunk, idx, start, end);
    if n == 1 {
        assert(parts_in_range(data, first, 0, start, end) =~= Seq::empty());
        assert(parts_in_range(data, first, n, start, end) =~= part);
        assert(stop > start);
        assert(part =~= data.subrange(
            start,
            if end + 1 < stop {
                end + 1
            } else {
                stop
            },
        ));
    } else {
        lemma_parts_in_range(data, first, (n - 1) as nat, start, end);
        lemma_chunk_len(data, idx - 1);
        let before = chunk_end(data.len(), idx - 1);
        assert(before == idx * CHUNK_SIZE_DEFAULT);
        assert(part_start(idx, chunk.len() as int, start) == 0);
        if end + 1 <= before {
            assert(part =~= Seq::empty());
        } else {
            assert(parts_in_range(data, first, n, start, end) =~= data.subrange(start, before)
                + part);
            assert(part =~= data.subrange(
                before,
                if end + 1 < stop {
                    end + 1
                } else {
                    stop
                },
            ));
        }
    }
}

/// The parts that a stream of a byte range delivers, one behind the other, are the bytes of the
/// range: only the chunks that overlap the range are needed.
pub proof fn law_streamed_parts_are_the_range(data: Seq<u8>, start: int, end: int)
    requires
        0 <= start <= end < data.len(),
    ensures
        ({
            let first = start / (CHUNK_SIZE_DEFAULT as int);
            let last = end / (CHUNK_SIZE_DEFAULT as int);
            parts_in_range(data, first, (last - first + 1) as nat, start, end) == data.subrange(
                start,
                end + 1,
            )
        }),
{
    let first = start / (CHUNK_SIZE_DEFAULT as int);
    let last = end / (CHUNK_SIZE_DEFAULT as int);
    assert(last < chunk_count(data.len()));
    lemma_parts_in_range(data, first, (last - first + 1) as nat, start, end);
    lemma_chunk_len(data, last);
    assert(end < chunk_end(data.len(), last));
}

/// The part of chunk `idx` that is in a byte range, both ends inclusive.
pub fn range_part(idx: usize, chunk: &[u8], start: u64, end: u64) -> (r: Vec<u8>)
    ensures
        r@ == part_of(chunk@, idx as int, start as int, end as int),
{
    let base: u128 = idx as u128 * CHUNK_SIZE_DEFAULT as u128;
    assert(base == idx * CHUNK_SIZE_DEFAULT);
    let from: usize = clip(base, start as u128, chunk.len());
    let to: usize = clip(base, end as u128 + 1, chunk.len());
    let to: usize = if to < from {
        from
    } else {
        to
    };
    copy_range(chunk, from, to)
}

fn clip(base: u128, pos: u128, len: usize) -> (r: usize)
    ensures
        r == (if pos - base < 0 {
            0
        } else if pos - base > len {
            len as int
        } else {
            pos - base
        }),
{
    if pos <= base {
        0
    } else if pos - base >= len as u128 {
        len
    } else {
        (pos - base) as usize
    }
}

impl ObjectStorage {
    /// Encode an object as the given version: its mega-files and its metadata, still pending.
    pub fn put(&self, object_key: &str, version: u64, data: &[u8]) -> (r: StorageResult<
        WrittenObject,
    >)
        requires
            self.chunk_store.wf(),
        ensures
            object_key@.len() == 0 ==> (r matches Err(e) && e matches StorageError::NotFound(m)
                && m@ == "object key cannot be empty"@),
            r is Ok <==> object_key@.len() > 0 && writes_chunks(
                self.chunk_store,
                data@,
                chunk_count(data@.len()),
            ),
            r matches Ok(w) ==> w.meta.version == version,
            // The mega-files hold the data.
            r matches Ok(w) ==> exists|shards: Seq<Seq<Seq<u8>>>, files: Seq<Seq<u8>>| #[trigger]
                is_fresh_write(self.chunk_store, w.meta, data@, shards, files) && files.len()
                    == w.handles@.len() && forall|i: int|
                    0 <= i < files.len() ==> #[trigger] files[i] == w.handles@[i].unwrap()@,
            object_key@.len() > 0 ==> (r matches Err(e) ==> is_first_write_error(
                self.chunk_store,
                data@,
                chunk_count(data@.len()),
                e,
            )),
    {
        match check_key(object_key) {
            Ok(()) => {},
            Err(e) => {
                return Err(e);
            },
        }
        let mut writer = ObjectWriter::new(&self.chunk_store, version);
        assert(data.len() == data@.len());
        assert(writer.data() + data@ =~= data@);
        match writer.write(&self.chunk_store, data) {
            Ok(()) => {},
            Err(e) => {
                proof {
                    lemma_full_chunk_failure(self.chunk_store, data@, e);
                }
                return Err(e);
            },
        }
        let ghost fed = writer;
        assert(fed.data() =~= data@);
        let r = writer.finish(&self.chunk_store);
        proof {
            if r is Ok {
                let w = r.unwrap();
                let (shards, files) = choose|shards: Seq<Seq<Seq<u8>>>, files: Seq<Seq<u8>>|
                    #[trigger]
                    is_fresh_write(self.chunk_store, w.meta, data@, shards, files) && final_files(
                        fed,
                        w.handles@,
                        files,
                    );
                assert forall|i: int| 0 <= i < files.len() implies #[trigger] files[i]
                    == w.handles@[i].unwrap()@ by {
                    assert(files[i] == fed.drained_of(i) + w.handles@[i].unwrap()@);
                    assert(files[i] =~= w.handles@[i].unwrap()@);
                }
                assert(is_fresh_write(self.chunk_store, w.meta, data@, shards, files));
            }
        }
        r
    }

    /// The version that a write is answered with, from how its promotion went. Where another write
    /// won, it is the version that is there now.
    pub fn put_result(
        &self,
        version: u64,
        promoted: StorageResult<()>,
        current: StorageResult<VersionMeta>,
    ) -> (r: StorageResult<u64>)
        ensures
            match promoted {
                Ok(_) => r == StorageResult::<u64>::Ok(version),
                Err(e) => if e is VersionConflict {
                    match current {
                        Ok(meta) => r == StorageResult::<u64>::Ok(meta.version),
                        Err(c) => r == StorageResult::<u64>::Err(c),
                    }
                } else {
                    r == StorageResult::<u64>::Err(e)
                },
            },
    {
        match promoted {
            Ok(_) => Ok(version),
            Err(StorageError::VersionConflict) => match current {
                Ok(meta) => Ok(meta.version),
                Err(c) => Err(c),
            },
            Err(e) => Err(e),
        }
    }

    /// Deliver the part of chunk `idx` that is in a byte range, both ends inclusive, from what was
    /// read of its shards.
    pub fn get_range_stream(
        &self,
        meta: &VersionMeta,
        idx: usize,
        start: u64,
        end: u64,
        results: &[StorageResult<Vec<u8>>],
    ) -> (r: StorageResult<RecoveredChunk>)
        requires
            self.chunk_store.wf(),
            idx < meta.chunk_checksums@.len(),
            results@.len() == self.chunk_store.num_disks,
        ensures
            ({
                let k = self.chunk_store.coder.k();
                let c = self.chunk_store.coder.c();
                let chunk = decoded_chunk(k, c, *meta, idx as int, results@);
                &&& r is Ok <==> chunk is Some
                &&& r matches Ok(read) ==> read.data@ == part_of(
                    chunk.unwrap(),
                    idx as int,
                    start as int,
                    end as int,
                ) && correction_pairs(read.corrections@) == corrections_of(
                    read_shards(results@),
                    decoded_shards(k, c, read_shards(results@)),
                    results@.len() as int,
                )
                &&& r matches Err(e) ==> is_chunk_error(k, c, *meta, idx as int, results@, e)
            }),
    {
        match self.chunk_store.decode_chunk(meta, idx, results) {
            Ok(chunk) => {
                let data = range_part(idx, chunk.data.as_slice(), start, end);
                Ok(RecoveredChunk { data, corrections: chunk.corrections })
            },
            Err(e) => Err(e),
        }
    }

    /// Plan deleting an object: its latest version is marked as deleted. `read` is what reading the
    /// record of that version gave.
    pub fn delete(
        &self,
        object_key: &str,
        latest: StorageResult<u64>,
        read: &StorageResult<Vec<u8>>,
    ) -> (r: StorageResult<BatchPlan>)
        ensures
            r is Ok <==> object_key@.len() > 0 && latest is Ok && read is Ok && is_record(
                read.unwrap()@,
            ) && healthy(self.meta_store@).len() > 0,
            r matches Ok(plan) ==> plan.targets@ == healthy(self.meta_store@) && marks_deleted(
                plan,
                object_key@,
                latest.unwrap(),
                read.unwrap()@,
            ),
            r matches Err(e) ==> if object_key@.len() == 0 {
                e matches StorageError::NotFound(m) && m@ == "object key cannot be empty"@
            } else {
                match (latest, read) {
                    (Err(c), _) => if c is NotFound {
                        e matches StorageError::NotFound(m) && m@ == object_key@
                    } else {
                        e == c
                    },
                    (Ok(_), Err(c)) => e == c,
                    (Ok(_), Ok(value)) => if !is_record(value@) {
                        is_record_error(value@, e)
                    } else {
                        e is NoHealthyDisks
                    },
                }
            },
    {
        let version: u64 = match check_delete(object_key, latest) {
            Ok(version) => version,
            Err(e) => {
                return Err(e);
            },
        };
        match read {
            Ok(value) => self.meta_store.mark_deleted(object_key, version, value.as_slice()),
            Err(e) => Err(e.clone()),
        }
    }

    /// Which files garbage collection removes: those with the number of a version that no committed
    /// version of an object with that directory has. Each file is given by its directory and name.
    pub fn garbage_collect(&self, entries: &[(String, VersionMeta)], files: &[(String, String)]) -> (r:
        Vec<bool>)
        ensures
            r@.len() == files@.len(),
            forall|i: int|
                0 <= i < files@.len() ==> #[trigger] r@[i] == is_garbage(
                    entries@,
                    files@[i].0@,
                    files@[i].1@,
                ),
    {
        let mut r: Vec<bool> = Vec::new();
        let mut i: usize = 0;
        while i < files.len()
            invariant
                i <= files@.len(),
                r@.len() == i,
                forall|j: int|
                    0 <= j < i ==> #[trigger] r@[j] == is_garbage(
                        entries@,
                        files@[j].0@,
                        files@[j].1@,
                    ),
            decreases files.len() - i,
        {
            r.push(is_orphan(entries, files[i].0.as_str(), files[i].1.as_str()));
            i += 1;
        }
        r
    }

    /// What startup does with each version. `complete` says for each whether its data is fully on
    /// disk.
    pub fn recover_on_startup(&self, entries: &[(String, VersionMeta)], complete: &[bool]) -> (r: Vec<
        RecoveryStep,
    >)
        requires
            complete@.len() == entries@.len(),
        ensures
            r@.len() == entries@.len(),
            forall|i: int|
                0 <= i < entries@.len() ==> (#[trigger] r@[i]).object_key@ == object_key_in(
                    entries@[i].0@,
                ) && r@[i].version == entries@[i].1.version && r@[i].action == recovery_of(
                    entries@[i].1.status,
                    complete@[i],
                ),
            // Committed and deleted versions are kept, whatever is on disk of their data.
            forall|i: int|
                0 <= i < entries@.len() && entries@[i].1.status != VersionStatus::Pending ==> (
                #[trigger] r@[i]).action == RecoveryAction::Keep,
            forall|i: int|
                0 <= i < entries@.len() && entries@[i].1.status == VersionStatus::Pending ==> (
                #[trigger] r@[i]).action == (if complete@[i] {
                    RecoveryAction::Promote
                } else {
                    RecoveryAction::Abandon
                }),
    {
        let mut r: Vec<RecoveryStep> = Vec::new();
        let mut i: usize = 0;
        while i < entries.len()
            invariant
                i <= entries@.len() == complete@.len(),
                r@.len() == i,
                forall|j: int|
                    0 <= j < i ==> (#[trigger] r@[j]).object_key@ == object_key_in(entries@[j].0@)
                        && r@[j].version == entries@[j].1.version && r@[j].action == recovery_of(
                        entries@[j].1.status,
                        complete@[j],
                    ),
            decreases entries.len() - i,
        {
            r.push(
                RecoveryStep {
                    object_key: object_key_of(entries[i].0.as_str()),
                    version: entries[i].1.version,
                    action: recovery_action(&entries[i].1, complete[i]),
                },
            );
            i += 1;
        }
        r
    }

    /// Plan creating a bucket, at the time of the call. `read` is what reading the bucket's key gave.
    pub fn create_bucket(&self, name: &str, read: &StorageResult<Vec<u8>>) -> (r: StorageResult<
        BatchPlan,
    >)
        ensures
            r is Ok <==> (read matches Err(e) && e is NotFound) && healthy(self.meta_store@).len()
                > 0,
            r matches Ok(plan) ==> plan.targets@ == healthy(self.meta_store@) && plan.deletes@.len()
                == 0 && exists|now: Seq<char>|
                put_pairs(plan.puts@) == seq![(bucket_key_of(name@), #[trigger] encode_utf8(now))],
            r matches Err(e) ==> match read {
                Ok(_) => e matches StorageError::BucketAlreadyExists(n) && n@ == name@,
                Err(c) => if c is NotFound {
                    e is NoHealthyDisks
                } else {
                    e == c
                },
            },
    {
        let created_at = current_time();
        self.meta_store.create_bucket(name, created_at.as_str(), read)
    }

    /// The bucket that reading its key gave.
    pub fn read_bucket(&self, name: &str, read: &StorageResult<Vec<u8>>) -> (r: StorageResult<
        BucketMeta,
    >)
        ensures
            r is Ok <==> read is Ok,
            r matches Ok(b) ==> b.name@ == name@ && forall|t: Seq<char>|
                read.unwrap()@ == #[trigger] encode_utf8(t) ==> b.created_at@ == t,
            r matches Err(e) ==> read matches Err(c) && if c is NotFound {
                e matches StorageError::NotFound(m) && m@ == "bucket '"@ + name@ + "'"@
            } else {
                e == c
            },
    {
        self.meta_store.read_bucket(name, read)
    }

    /// The prefix under which `delete_bucket` looks for objects.
    pub fn bucket_prefix(&self, name: &str) -> (r: String)
        ensures
            r@ == name@ + "/"@,
    {
        bucket_prefix(name)
    }

    /// Plan deleting a bucket, of which no object may have a committed version. `read` is what
    /// reading the bucket's key gave, `found` the versions under its prefix.
    pub fn delete_bucket(
        &self,
        name: &str,
        read: &StorageResult<Vec<u8>>,
        found: &StorageResult<Vec<(String, VersionMeta)>>,
    ) -> (r: StorageResult<BatchPlan>)
        ensures
            r is Ok <==> read is Ok && (found matches Ok(entries) && is_empty_bucket(
                entries@,
                name@,
            )) && healthy(self.meta_store@).len() > 0,
            // A committed version of an object in the bucket, whatever its key is, keeps the bucket.
            forall|key: Seq<char>, version: u64, i: int|
                #![trigger version_key_of(name@ + "/"@ + key, version), found.unwrap()@[i]]
                found is Ok && 0 <= i < found.unwrap()@.len() && found.unwrap()@[i].0@
                    == version_key_of(name@ + "/"@ + key, version) && found.unwrap()@[i].1.status
                    == VersionStatus::Committed ==> r is Err,
            r matches Ok(plan) ==> plan.targets@ == healthy(self.meta_store@) && plan.puts@.len()
                == 0 && texts(plan.deletes@) == seq![bucket_key_of(name@)],
            r matches Err(e) ==> match (read, found) {
                (Err(c), _) => if c is NotFound {
                    e matches StorageError::NotFound(m) && m@ == "bucket '"@ + name@ + "'"@
                } else {
                    e == c
                },
                (Ok(_), Err(c)) => e == c,
                (Ok(_), Ok(entries)) => if !is_empty_bucket(entries@, name@) {
                    e matches StorageError::Transient(m) && m@ == "bucket '"@ + name@
                        + "' is not empty, cannot delete"@
                } else {
                    e is NoHealthyDisks
                },
            },
    {
        match self.read_bucket(name, read) {
            Ok(_) => {},
            Err(e) => {
                return Err(e);
            },
        }
        proof {
            if let Ok(entries) = found {
                assert forall|key: Seq<char>, version: u64, i: int|
                    #![trigger version_key_of(name@ + "/"@ + key, version), entries@[i]]
                    0 <= i < entries@.len() && entries@[i].0@ == version_key_of(
                        name@ + "/"@ + key,
                        version,
                    ) && entries@[i].1.status == VersionStatus::Committed implies !is_empty_bucket(
                    entries@,
                    name@,
                ) by {
                    lemma_bucket_is_not_empty(entries@, name@, key, version, i);
                }
            }
        }
        match found {
            Ok(entries) => match check_bucket_empty(
                name,
                count_committed(entries.as_slice(), name),
            ) {
                Ok(()) => self.meta_store.delete_bucket(name),
                Err(e) => Err(e),
            },
            Err(e) => Err(e.clone()),
        }
    }

    /// Plan setting the Content-Type of an object.
    pub fn set_content_type(
        &self,
        object_key: &str,
        read: &StorageResult<VersionMeta>,
        content_type: &str,
    ) -> (r: StorageResult<BatchPlan>)
        requires
            read matches Ok(meta) ==> (meta.compression_level matches Some(l) ==> l < i32::MAX),
        ensures
            self.is_value_plan(
                r,
                object_key@,
                *read,
                lowercase("content-type"@),
                content_type@,
            ),
    {
        self.set_metadata_value(object_key, read, "content-type", content_type)
    }

    /// Plan setting the Cache-Control header of an object.
    pub fn set_cache_control(
        &self,
        object_key: &str,
        read: &StorageResult<VersionMeta>,
        cache_control: &str,
    ) -> (r: StorageResult<BatchPlan>)
        requires
            read matches Ok(meta) ==> (meta.compression_level matches Some(l) ==> l < i32::MAX),
        ensures
            self.is_value_plan(
                r,
                object_key@,
                *read,
                lowercase("cache-control"@),
                cache_control@,
            ),
    {
        self.set_metadata_value(object_key, read, "cache-control", cache_control)
    }

    /// Plan setting the ACL of an object, given as a JSON text: the JSON value is written again and
    /// stored under the key `x-amz-acl`.
    pub fn set_acl(&self, object_key: &str, read: &StorageResult<VersionMeta>, acl: &str) -> (r:
        StorageResult<BatchPlan>)
        requires
            read matches Ok(meta) ==> (meta.compression_level matches Some(l) ==> l < i32::MAX),
        ensures
            match json_rewritten(acl@) {
                Ok(text) => self.is_value_plan(
                    r,
                    object_key@,
                    *read,
                    lowercase("x-amz-acl"@),
                    text,
                ),
                Err(m) => r matches Err(e) && e matches StorageError::KvError(t) && t@
                    == "serialize ACL: "@ + m,
            },
    {
        match rewrite_json(acl) {
            Ok(text) => self.set_metadata_value(object_key, read, "x-amz-acl", text.as_str()),
            Err(m) => Err(StorageError::KvError(join2("serialize ACL: ", m.as_str()))),
        }
    }
}

/// Whether garbage collection removes a file.
pub open spec fn is_garbage(
    entries: Seq<(String, VersionMeta)>,
    dir: Seq<char>,
    file_name: Seq<char>,
) -> bool {
    version_in_name(file_name) matches Some(v) && !is_referenced(entries, dir, v)
}

/// The compact text of the JSON value that a text stands for, or the message why it is none.
pub uninterp spec fn json_rewritten(text: Seq<char>) -> Result<Seq<char>, Seq<char>>;

/// The texts in a result.
pub open spec fn result_texts(r: Result<String, String>) -> Result<Seq<char>, Seq<char>> {
    match r {
        Ok(t) => Ok(t@),
        Err(m) => Err(m@),
    }
}

/// `serde_json::from_str` for any JSON value, and then the value's text: both depend on the text
/// alone. That writing the text again gives the same text is not claimed.
#[verifier::external_body]
fn rewrite_json(text: &str) -> (r: Result<String, String>)
    ensures
        result_texts(r) == json_rewritten(text@),
{
    let value: Result<serde_json::Value, serde_json::Error> = serde_json::from_str(text);
    value.map(|v| v.to_string()).map_err(|e| e.to_string())
}

/// Whether `r` is the value of the metadata key `key` of the version that was read.
pub open spec fn is_value_of(
    r: StorageResult<Option<String>>,
    read: StorageResult<VersionMeta>,
    key: Seq<char>,
) -> bool {
    match read {
        Ok(meta) => r matches Ok(v) && if meta.metadata@.contains_key(key) {
            v matches Some(t) && t@ == meta.metadata@[key]
        } else {
            v is None
        },
        Err(c) => if c is NotFound {
            r matches Ok(v) && v is None
        } else {
            r == StorageResult::<Option<String>>::Err(c)
        },
    }
}

/// The Content-Type of the version that was read.
pub fn get_content_type(read: &StorageResult<VersionMeta>) -> (r: StorageResult<Option<String>>)
    ensures
        is_value_of(r, *read, lowercase("content-type"@)),
{
    get_metadata_value(read, "content-type")
}

/// The Cache-Control header of the version that was read.
pub fn get_cache_control(read: &StorageResult<VersionMeta>) -> (r: StorageResult<Option<String>>)
    ensures
        is_value_of(r, *read, lowercase("cache-control"@)),
{
    get_metadata_value(read, "cache-control")
}

/// The ACL of the version that was read, as the text of a JSON value.
pub fn get_acl(read: &StorageResult<VersionMeta>) -> (r: StorageResult<Option<String>>)
    ensures
        match read {
            Ok(meta) => if meta.metadata@.contains_key(lowercase("x-amz-acl"@)) {
                match json_rewritten(meta.metadata@[lowercase("x-amz-acl"@)]) {
                    Ok(text) => r matches Ok(Some(t)) && t@ == text,
                    Err(m) => r matches Err(e) && e matches StorageError::KvError(t) && t@
                        == "parse ACL: "@ + m,
                }
            } else {
                r matches Ok(v) && v is None
            },
            Err(c) => if c is NotFound {
                r matches Ok(v) && v is None
            } else {
                r == StorageResult::<Option<String>>::Err(*c)
            },
        },
{
    let stored: String = match get_metadata_value(read, "x-amz-acl") {
        Ok(Some(text)) => text,
        Ok(None) => {
            return Ok(None);
        },
        Err(e) => {
            return Err(e);
        },
    };
    match rewrite_json(stored.as_str()) {
        Ok(text) => Ok(Some(text)),
        Err(m) => Err(StorageError::KvError(join2("parse ACL: ", m.as_str()))),
    }
}

/// How many are lost.
pub open spec fn lost_count(lost: Seq<bool>) -> nat
    decreases lost.len(),
{
    if lost.len() == 0 {
        0
    } else {
        lost_count(lost.drop_last()) + if lost.last() {
            1nat
        } else {
            0nat
        }
    }
}

proof fn lemma_survivors(shards: Seq<Option<Seq<u8>>>, lost: Seq<bool>)
    requires
        shards.len() == lost.len(),
        forall|i: int| 0 <= i < lost.len() && !lost[i] ==> (#[trigger] shards[i]) is Some,
    ensures
        survivors(shards) + lost_count(lost) >= shards.len(),
    decreases lost.len(),
{
    if lost.len() > 0 {
        let s = shards.drop_last();
        let l = lost.drop_last();
        assert forall|i: int| 0 <= i < l.len() && !l[i] implies (#[trigger] s[i]) is Some by {
            assert(s[i] == shards[i]);
        }
        lemma_survivors(s, l);
        assert(shards[shards.len() - 1] == shards.last());
    }
}

/// What is read of one disk at the entry of a chunk: the entry as it was written, unless it is lost.
/// What is lost is damage that shows: it reads as an error, or as the shard all the same.
pub open spec fn is_read_or_lost(
    disk: Disk,
    file: Seq<u8>,
    from: int,
    to: int,
    entry: StorageResult<Vec<u8>>,
    result: StorageResult<Vec<u8>>,
    shard: Seq<u8>,
    lost: bool,
) -> bool {
    if lost {
        result matches Ok(v) ==> v@ == shard
    } else {
        !disk.failed() && entry is Ok && entry.unwrap()@ == file.subrange(from, to) && is_read_of(
            disk,
            entry,
            result,
        )
    }
}

proof fn lemma_entry_is_read(
    store: ChunkStore,
    meta: VersionMeta,
    data: Seq<u8>,
    shards: Seq<Seq<Seq<u8>>>,
    files: Seq<Seq<u8>>,
    j: int,
    i: int,
    entry: StorageResult<Vec<u8>>,
    result: StorageResult<Vec<u8>>,
)
    requires
        store.wf(),
        is_written(store.coder.k(), store.coder.c(), meta, data, shards, files),
        0 <= j < shards.len(),
        0 <= i < files.len(),
        ({
            let sizes = chunk_entry_sizes(meta, store.coder.k(), store.num_disks as nat);
            is_read_or_lost(
                store.disks@[i],
                files[i],
                entry_offset_of(sizes, j),
                entry_offset_of(sizes, j + 1),
                entry,
                result,
                shards[j][i],
                false,
            )
        }),
    ensures
        result matches Ok(v) && v@ == shards[j][i],
{
    let k = store.coder.k();
    let c = store.coder.c();
    let sizes = chunk_entry_sizes(meta, k, store.num_disks as nat);
    let off = entry_offset_of(sizes, j);
    let file = files[i];
    let shard = shards[j][i];
    law_written_shard_is_read_back(k, c, meta, data, shards, files, i, j);
    law_written_file_len(k, c, meta, data, shards, files, i);
    lemma_entry_size(k, c, meta, data, shards, files, i, j);
    lemma_sizes_before(sizes, j + 1, shards.len() as int);
    lemma_sizes_before(sizes, 0, j);
    let len = 24 + shard.len();
    assert(entry_offset_of(sizes, j + 1) == off + len);
    let bytes = entry.unwrap()@;
    assert(bytes.subrange(16, 24) =~= file.subrange(off + 16, off + 24));
    assert(bytes.subrange(0, 16) =~= file.subrange(off, off + 16));
    assert(bytes.subrange(24, len as int) =~= file.subrange(off + 24, off + len));
    assert(intact_shard_at(bytes, 0) == Some(shard));
}

proof fn lemma_sizes_before(sizes: Seq<u64>, a: int, b: int)
    requires
        0 <= a <= b,
    ensures
        0 <= sizes_before(sizes, a) <= sizes_before(sizes, b),
    decreases b,
{
    if a < b {
        lemma_sizes_before(sizes, a, b - 1);
    } else if a > 0 {
        lemma_sizes_before(sizes, a - 1, b - 1);
    }
}

/// What was written is read back, whatever is lost on as many disks as there are parity shards:
/// enough shards of every chunk are read, so that `get` gives the data.
pub proof fn law_written_object_is_read_back(
    store: ChunkStore,
    meta: VersionMeta,
    data: Seq<u8>,
    shards: Seq<Seq<Seq<u8>>>,
    files: Seq<Seq<u8>>,
    entries: Seq<Seq<StorageResult<Vec<u8>>>>,
    results: Seq<Vec<StorageResult<Vec<u8>>>>,
    lost: Seq<Seq<bool>>,
)
    requires
        store.wf(),
        is_written(store.coder.k(), store.coder.c(), meta, data, shards, files),
        results.len() == shards.len(),
        forall|j: int|
            0 <= j < results.len() ==> (#[trigger] results[j])@.len() == store.num_disks
                && lost[j].len() == store.num_disks && lost_count(lost[j]) <= store.coder.c(),
        forall|j: int, i: int|
            0 <= j < results.len() && 0 <= i < store.num_disks ==> is_read_or_lost(
                store.disks@[i],
                files[i],
                entry_offset_of(
                    chunk_entry_sizes(meta, store.coder.k(), store.num_disks as nat),
                    j,
                ),
                entry_offset_of(
                    chunk_entry_sizes(meta, store.coder.k(), store.num_disks as nat),
                    j + 1,
                ),
                entries[j][i],
                #[trigger] results[j]@[i],
                shards[j][i],
                lost[j][i],
            ),
    ensures
        is_stored(store.coder.k(), store.coder.c(), meta, data, shards),
        all_enough(store.coder.k(), shards, 0, results),
{
    let k = store.coder.k();
    let c = store.coder.c();
    assert forall|j: int| 0 <= j < results.len() implies enough_shards(
        k,
        shards[0 + j],
        (#[trigger] results[j])@,
    ) by {
        let s = read_shards(results[j]@);
        lemma_written_shard_count(k, c, meta, data, shards, files, j);
        assert forall|i: int| 0 <= i < s.len() && !lost[j][i] implies (#[trigger] s[i]) is Some by {
            lemma_entry_is_read(
                store,
                meta,
                data,
                shards,
                files,
                j,
                i,
                entries[j][i],
                results[j]@[i],
            );
        }
        assert forall|i: int| 0 <= i < shards[j].len() && (#[trigger] s[i]) is Some implies
            s[i].unwrap() == shards[j][i] by {
            if !lost[j][i] {
                lemma_entry_is_read(
                    store,
                    meta,
                    data,
                    shards,
                    files,
                    j,
                    i,
                    entries[j][i],
                    results[j]@[i],
                );
            }
        }
        lemma_survivors(s, lost[j]);
    }
}

proof fn lemma_bucket_is_not_empty(
    entries: Seq<(String, VersionMeta)>,
    name: Seq<char>,
    key: Seq<char>,
    version: u64,
    i: int,
)
    requires
        0 <= i < entries.len(),
        entries[i].0@ == version_key_of(name + "/"@ + key, version),
        entries[i].1.status == VersionStatus::Committed,
    ensures
        !is_empty_bucket(entries, name),
{
    law_bucket_with_an_object_is_not_empty(entries, name, key, version, i);
    lemma_committed_in_bucket(entries, name, entries.len() as int);
}

/// Garbage collection keeps the mega-file of every committed version, removes that of a version
/// that is not committed, and touches no file that is not the mega-file of a version.
pub proof fn law_garbage_is_what_no_committed_version_needs(
    entries: Seq<(String, VersionMeta)>,
    object_key: Seq<char>,
    version: u64,
    file_name: Seq<char>,
)
    ensures
        (exists|i: int|
            0 <= i < entries.len() && (#[trigger] entries[i]).0@ == version_key_of(
                object_key,
                version,
            ) && entries[i].1.version == version && entries[i].1.status
                == VersionStatus::Committed) ==> !is_garbage(
            entries,
            safe_key_of(object_key),
            version_file_of(version),
        ),
        (forall|i: int|
            0 <= i < entries.len() && (#[trigger] entries[i]).1.status == VersionStatus::Committed
                && entries[i].1.version == version ==> object_key_in(entries[i].0@) != object_key)
            ==> is_garbage(entries, safe_key_of(object_key), version_file_of(version)),
        file_name.len() == 0 || file_name[0] != 'v' ==> !is_garbage(
            entries,
            safe_key_of(object_key),
            file_name,
        ),
{
    if exists|i: int|
        0 <= i < entries.len() && (#[trigger] entries[i]).0@ == version_key_of(object_key, version)
            && entries[i].1.version == version && entries[i].1.status == VersionStatus::Committed {
        let i = choose|i: int|
            0 <= i < entries.len() && (#[trigger] entries[i]).0@ == version_key_of(
                object_key,
                version,
            ) && entries[i].1.version == version && entries[i].1.status
                == VersionStatus::Committed;
        law_committed_data_is_kept(entries, object_key, version, i);
    } else if forall|i: int|
        0 <= i < entries.len() && (#[trigger] entries[i]).1.status == VersionStatus::Committed
            && entries[i].1.version == version ==> object_key_in(entries[i].0@) != object_key {
        law_deleted_data_is_reclaimed(entries, object_key, version);
    }
    if exists|i: int|
        0 <= i < entries.len() && (#[trigger] entries[i]).0@ == version_key_of(object_key, version)
            && entries[i].1.version == version && entries[i].1.status == VersionStatus::Committed {
        law_object_key_is_found_again(object_key, version);
    }
    reveal_strlit("v");
    if "v"@.is_prefix_of(file_name) {
        assert(file_name.subrange(0, 1)[0] == 'v');
    }
}

/// The metadata value that was set on a version is the one that is read of it afterwards.
pub proof fn law_set_value_is_got(
    plan: BatchPlan,
    object_key: Seq<char>,
    before: VersionMeta,
    after: VersionMeta,
    key: Seq<char>,
    value: Seq<char>,
    now: Seq<char>,
    r: StorageResult<Option<String>>,
)
    requires
        sets_value(plan, object_key, before, key, value, now),
        is_record_of(put_pairs(plan.puts@)[0].1, after),
        // What a version holds fits into its record.
        forall|m: VersionMeta| #[trigger]
            with_metadata(before, m, key, value, now) ==> fits_record(m),
        key != "last-modified"@,
        is_value_of(r, Ok(after), key),
    ensures
        r matches Ok(v) && v matches Some(t) && t@ == value,
        // The version is written where it is read from.
        put_pairs(plan.puts@)[0].0 == version_key_of(object_key, before.version),
        after.version == before.version,
        after.status == before.status,
{
    let m = choose|m: VersionMeta| #[trigger]
        with_metadata(before, m, key, value, now) && writes_record(
            plan,
            version_key_of(object_key, before.version),
            m,
        ) && (fits_record(m) ==> forall|q: VersionMeta| #[trigger]
            is_record_of(record_bytes(m), q) ==> same_meta(q, m));
    assert(put_pairs(plan.puts@)[0].1 == record_bytes(m));
    assert(same_meta(after, m));
    law_other_metadata_is_kept(before, m, key, value, now, key);
}

/// A key that a version has no metadata value for is read as none.
pub proof fn law_value_that_was_not_set_is_none(
    meta: VersionMeta,
    key: Seq<char>,
    r: StorageResult<Option<String>>,
)
    requires
        is_value_of(r, Ok(meta), key),
    ensures
        r matches Ok(v) && (v is None <==> !meta.metadata@.contains_key(key)),
{
}

/// Garbage collection touches no file whose name is not a version number behind the letter, such as
/// a file that is being rewritten.
pub proof fn law_files_that_are_no_versions_are_kept(
    entries: Seq<(String, VersionMeta)>,
    dir: Seq<char>,
    file_name: Seq<char>,
    i: int,
)
    requires
        1 < i < file_name.len(),
        !('0' <= file_name[i] <= '9'),
    ensures
        !is_garbage(entries, dir, file_name),
{
    reveal_strlit("v");
    if is_garbage(entries, dir, file_name) {
        let digits = file_name.skip(1);
        law_only_digits_are_read_as_a_number(digits, i - 1);
        assert(digits[i - 1] == file_name[i]);
    }
}

} // verus!
