//! What is put is what is got: the laws that take an object from its write to its reads.
use vstd::prelude::*;

verus! {

use crate::api::{
    chunk_entry_sizes, chunk_index, is_get_result, is_range_result, range_defect, RangeRead,
};
use crate::apis::s3::{get_headers, head_headers, quoted};
use crate::checksum::{object_hash_of, xxh3};
use crate::chunk_store::ChunkStore;
use crate::disk::{entry_offset_of, VersionMeta, VersionStatus};
use crate::errors::StorageResult;
use crate::history::{
    committed_in, counter_in, holds, is_history, law_data_outlives_changes,
    law_written_version_is_read_back, plan_applied, record_in,
};
use crate::metadata::BatchPlan;
use crate::object_read::{
    chunk_count, chunk_len_of, chunk_of, decoded_chunk, decoded_range, ReadChunks,
    CHUNK_SIZE_DEFAULT,
};
use crate::object_write::{is_fresh_write, is_written};
use crate::operations::{
    is_read_or_lost, law_written_object_is_read_back, lost_count, part_of, part_start,
};
use crate::record::{fits_record, is_record_of, json_bytes, one_pair, record_bytes};
use crate::text::{decimal, hex};
use crate::versions::{
    best_of, counts_to, promotes, sets_pending, with_status_at, DiskVersions,
};
use vstd::utf8::{encode_scalar, encode_utf8};

/// The three plans that bring a version into the metadata store: counting it, writing it as pending
/// and promoting it.
pub struct WriteSteps {
    pub counting: BatchPlan,
    pub writing: BatchPlan,
    pub promoting: BatchPlan,
}

/// A database after the three steps of a write.
pub open spec fn after_write(db: Map<Seq<char>, Seq<u8>>, steps: WriteSteps) -> Map<
    Seq<char>,
    Seq<u8>,
> {
    plan_applied(plan_applied(plan_applied(db, steps.counting), steps.writing), steps.promoting)
}

/// Whether the steps are those of writing the version `meta` of an object, committed at `now`.
pub open spec fn are_write_steps(
    db: Map<Seq<char>, Seq<u8>>,
    steps: WriteSteps,
    object_key: Seq<char>,
    meta: VersionMeta,
    now: Seq<char>,
) -> bool {
    &&& is_history(db, object_key)
    &&& meta.version == counter_in(db, object_key) + 1
    &&& counts_to(steps.counting, object_key, meta.version)
    &&& sets_pending(steps.writing, object_key, meta)
    &&& promotes(steps.promoting, object_key, meta.version, record_bytes(meta), now)
    &&& encode_utf8(now).len() <= 64
}

/// Whether `record` is the record that a read finds after a write, on replicas that hold it: that of
/// the latest version, or that of the version by its number.
pub open spec fn is_found_record(
    db: Map<Seq<char>, Seq<u8>>,
    steps: WriteSteps,
    object_key: Seq<char>,
    version: u64,
    disks: Seq<DiskVersions>,
    record: Seq<u8>,
) -> bool {
    &&& disks.len() > 0
    &&& forall|i: int|
        0 <= i < disks.len() ==> holds(
            #[trigger] disks[i],
            after_write(db, steps),
            object_key,
        )
    &&& best_of(disks, disks.len() as int) == Some(record) || record_in(
        after_write(db, steps),
        object_key,
        version,
    ) == Some(record)
}

/// Whether the chunks of an object can be described in a record: the number of chunks and the
/// compression level are within their fields.
pub open spec fn is_recordable(store: ChunkStore, len: nat) -> bool {
    &&& chunk_count(len) <= u32::MAX
    &&& store.compression_level matches Some(l) ==> 1 <= l <= 22
}

proof fn lemma_utf8_len(s: Seq<char>)
    ensures
        encode_utf8(s).len() <= 4 * s.len(),
    decreases s.len(),
{
    if s.len() > 0 {
        lemma_utf8_len(s.drop_first());
        assert(encode_scalar(s[0] as u32).len() <= 4);
    }
}

/// What a write left is found by a read: the version that it gave is the latest one, and its record
/// describes the data that was written, with the size, the checksum of the whole and those of the
/// chunks. This holds of a put and of a streamed write, however its data was cut.
pub proof fn law_write_is_on_record(
    store: ChunkStore,
    db: Map<Seq<char>, Seq<u8>>,
    steps: WriteSteps,
    object_key: Seq<char>,
    meta: VersionMeta,
    now: Seq<char>,
    disks: Seq<DiskVersions>,
    data: Seq<u8>,
    shards: Seq<Seq<Seq<u8>>>,
    files: Seq<Seq<u8>>,
    record: Seq<u8>,
    q: VersionMeta,
)
    requires
        is_recordable(store, data.len()),
        is_fresh_write(store, meta, data, shards, files),
        are_write_steps(db, steps, object_key, meta, now),
        is_found_record(db, steps, object_key, meta.version, disks, record),
        is_record_of(record, q),
    ensures
        best_of(disks, disks.len() as int) == Some(record),
        committed_in(after_write(db, steps), object_key, meta.version) == Some(record),
        with_status_at(meta, q, VersionStatus::Committed, now),
        is_written(store.coder.k(), store.coder.c(), q, data, shards, files),
        q.data_size == data.len(),
        q.checksum == object_hash_of(data),
        q.chunk_checksums@.len() == chunk_count(data.len()),
        forall|j: int|
            0 <= j < chunk_count(data.len()) ==> #[trigger] q.chunk_checksums@[j] == xxh3(
                chunk_of(data, j),
            ),
{
    let k = store.coder.k();
    let c = store.coder.c();
    let modified = "last-modified"@;
    reveal_strlit("last-modified");
    lemma_utf8_len(modified);
    assert(json_bytes(meta).len() == 2);
    assert(fits_record(meta));
    law_written_version_is_read_back(
        db,
        steps.counting,
        steps.writing,
        steps.promoting,
        object_key,
        meta,
        now,
        disks,
    );
    assert(meta.metadata@.insert(modified, now) == one_pair(modified, now));
    let latest = best_of(disks, disks.len() as int);
    assert(latest == Some(record));
    assert(with_status_at(meta, q, VersionStatus::Committed, now));
    law_data_outlives_changes(k, c, meta, q, data, shards, files);
    assert forall|j: int| 0 <= j < chunk_count(data.len()) implies #[trigger] q.chunk_checksums@[j]
        == xxh3(chunk_of(data, j)) by {
        assert(crate::chunk_store::is_chunk_encoding(
            k,
            c,
            q.compression_level,
            chunk_of(data, j),
            shards[j],
        ));
    }
}

/// Whether `results` are the reads of the chunks of an object that was written under `meta`, where
/// no more than `lost` says is lost: of each chunk on as many disks as there are parity shards.
pub open spec fn are_reads(
    store: ChunkStore,
    meta: VersionMeta,
    shards: Seq<Seq<Seq<u8>>>,
    files: Seq<Seq<u8>>,
    entries: Seq<Seq<StorageResult<Vec<u8>>>>,
    results: Seq<Vec<StorageResult<Vec<u8>>>>,
    lost: Seq<Seq<bool>>,
) -> bool {
    let sizes = chunk_entry_sizes(meta, store.coder.k(), store.num_disks as nat);
    &&& results.len() == shards.len()
    &&& forall|j: int|
        0 <= j < results.len() ==> (#[trigger] results[j])@.len() == store.num_disks
            && lost[j].len() == store.num_disks && lost_count(lost[j]) <= store.coder.c()
    &&& forall|j: int, i: int|
        0 <= j < results.len() && 0 <= i < store.num_disks ==> is_read_or_lost(
            store.disks@[i],
            files[i],
            entry_offset_of(sizes, j),
            entry_offset_of(sizes, j + 1),
            entries[j][i],
            #[trigger] results[j]@[i],
            shards[j][i],
            lost[j][i],
        )
}

proof fn lemma_written_is_got(
    store: ChunkStore,
    meta: VersionMeta,
    data: Seq<u8>,
    shards: Seq<Seq<Seq<u8>>>,
    files: Seq<Seq<u8>>,
    entries: Seq<Seq<StorageResult<Vec<u8>>>>,
    results: Seq<Vec<StorageResult<Vec<u8>>>>,
    lost: Seq<Seq<bool>>,
    got: StorageResult<ReadChunks>,
)
    requires
        store.wf(),
        is_written(store.coder.k(), store.coder.c(), meta, data, shards, files),
        are_reads(store, meta, shards, files, entries, results, lost),
        is_get_result(store, meta, results, got),
    ensures
        got is Ok,
        got.unwrap().data@ == data,
{
    law_written_object_is_read_back(store, meta, data, shards, files, entries, results, lost);
}

/// What is put is what is got, by the number of the version or as the latest one, whatever is lost
/// on as many disks as there are parity shards.
pub proof fn law_put_is_got(
    store: ChunkStore,
    db: Map<Seq<char>, Seq<u8>>,
    steps: WriteSteps,
    object_key: Seq<char>,
    meta: VersionMeta,
    now: Seq<char>,
    disks: Seq<DiskVersions>,
    data: Seq<u8>,
    shards: Seq<Seq<Seq<u8>>>,
    files: Seq<Seq<u8>>,
    record: Seq<u8>,
    q: VersionMeta,
    entries: Seq<Seq<StorageResult<Vec<u8>>>>,
    results: Seq<Vec<StorageResult<Vec<u8>>>>,
    lost: Seq<Seq<bool>>,
    got: StorageResult<ReadChunks>,
)
    requires
        // The object was put, and its record was read.
        store.wf(),
        is_recordable(store, data.len()),
        is_fresh_write(store, meta, data, shards, files),
        are_write_steps(db, steps, object_key, meta, now),
        is_found_record(db, steps, object_key, meta.version, disks, record),
        is_record_of(record, q),
        // Its chunks were read, but for what was lost.
        are_reads(store, q, shards, files, entries, results, lost),
        is_get_result(store, q, results, got),
    ensures
        got is Ok,
        got.unwrap().data@ == data,
{
    law_write_is_on_record(
        store,
        db,
        steps,
        object_key,
        meta,
        now,
        disks,
        data,
        shards,
        files,
        record,
        q,
    );
    lemma_written_is_got(store, q, data, shards, files, entries, results, lost, got);
}

proof fn lemma_headers(q: VersionMeta, date: Option<Seq<char>>)
    ensures
        head_headers(q, date)[0] == ("content-length"@, decimal(q.data_size as nat)),
        head_headers(q, date)[1] == ("etag"@, quoted(hex(q.checksum as nat))),
        get_headers(q, date)[0] == ("content-length"@, decimal(q.data_size as nat)),
        get_headers(q, date)[1] == ("etag"@, quoted(hex(q.checksum as nat))),
{
}

/// What is told about an object after a put is the size and the hash of what was put, and the reply
/// with the object tells the same.
pub proof fn law_head_tells_what_was_put(
    store: ChunkStore,
    db: Map<Seq<char>, Seq<u8>>,
    steps: WriteSteps,
    object_key: Seq<char>,
    meta: VersionMeta,
    now: Seq<char>,
    disks: Seq<DiskVersions>,
    data: Seq<u8>,
    shards: Seq<Seq<Seq<u8>>>,
    files: Seq<Seq<u8>>,
    record: Seq<u8>,
    q: VersionMeta,
    date: Option<Seq<char>>,
)
    requires
        is_recordable(store, data.len()),
        is_fresh_write(store, meta, data, shards, files),
        are_write_steps(db, steps, object_key, meta, now),
        is_found_record(db, steps, object_key, meta.version, disks, record),
        is_record_of(record, q),
    ensures
        head_headers(q, date)[0] == ("content-length"@, decimal(data.len())),
        head_headers(q, date)[1] == ("etag"@, quoted(hex(object_hash_of(data) as nat))),
        get_headers(q, date)[0] == head_headers(q, date)[0],
        get_headers(q, date)[1] == head_headers(q, date)[1],
{
    law_write_is_on_record(
        store,
        db,
        steps,
        object_key,
        meta,
        now,
        disks,
        data,
        shards,
        files,
        record,
        q,
    );
    lemma_headers(q, date);
}

/// Where chunk `m` starts in an object, by its record.
pub open spec fn recorded_start(meta: VersionMeta, m: int) -> int {
    if m < meta.chunk_checksums@.len() {
        m * CHUNK_SIZE_DEFAULT
    } else {
        meta.data_size as int
    }
}

/// The first chunks of a read are the start of it, and what follows them is no longer than the
/// record says.
proof fn lemma_first_chunks(
    k: nat,
    c: nat,
    meta: VersionMeta,
    results: Seq<Vec<StorageResult<Vec<u8>>>>,
    m: int,
    n: int,
)
    requires
        0 <= m <= n <= meta.chunk_checksums@.len(),
        decoded_range(k, c, meta, 0, n, results) is Some,
    ensures
        ({
            let head = decoded_range(k, c, meta, 0, m, results);
            let all = decoded_range(k, c, meta, 0, n, results).unwrap();
            &&& head is Some
            &&& head.unwrap().len() <= all.len()
            &&& head.unwrap() == all.take(head.unwrap().len() as int)
            &&& all.len() - head.unwrap().len() <= recorded_start(meta, n) - recorded_start(meta, m)
        }),
    decreases n,
{
    let all = decoded_range(k, c, meta, 0, n, results).unwrap();
    if m < n {
        lemma_first_chunks(k, c, meta, results, m, n - 1);
        let shorter = decoded_range(k, c, meta, 0, n - 1, results).unwrap();
        let chunk = decoded_chunk(k, c, meta, n - 1, results[n - 1]@).unwrap();
        assert(all == shorter + chunk);
        let head = decoded_range(k, c, meta, 0, m, results).unwrap();
        assert(all.take(head.len() as int) =~= shorter.take(head.len() as int));
        assert(chunk.len() <= recorded_start(meta, n) - recorded_start(meta, n - 1));
    } else {
        assert(all.take(all.len() as int) =~= all);
    }
}

/// Where a read is as long as the record says, every chunk stands where the record says.
proof fn lemma_chunk_in_place(
    k: nat,
    c: nat,
    meta: VersionMeta,
    results: Seq<Vec<StorageResult<Vec<u8>>>>,
    i: int,
)
    requires
        0 <= i < meta.chunk_checksums@.len(),
        decoded_range(k, c, meta, 0, meta.chunk_checksums@.len() as int, results) is Some,
        decoded_range(
            k,
            c,
            meta,
            0,
            meta.chunk_checksums@.len() as int,
            results,
        ).unwrap().len() == meta.data_size,
    ensures
        ({
            let all = decoded_range(
                k,
                c,
                meta,
                0,
                meta.chunk_checksums@.len() as int,
                results,
            ).unwrap();
            let chunk = decoded_chunk(k, c, meta, i, results[i]@);
            &&& chunk is Some
            &&& 0 <= recorded_start(meta, i) <= recorded_start(meta, i + 1) <= all.len()
            &&& chunk.unwrap() == all.subrange(
                recorded_start(meta, i),
                recorded_start(meta, i + 1),
            )
        }),
{
    let total = meta.chunk_checksums@.len() as int;
    let all = decoded_range(k, c, meta, 0, total, results).unwrap();
    lemma_first_chunks(k, c, meta, results, i, total);
    lemma_first_chunks(k, c, meta, results, 0, i);
    lemma_first_chunks(k, c, meta, results, i + 1, total);
    lemma_first_chunks(k, c, meta, results, 0, i + 1);
    let before = decoded_range(k, c, meta, 0, i, results).unwrap();
    let with = decoded_range(k, c, meta, 0, i + 1, results).unwrap();
    let chunk = decoded_chunk(k, c, meta, i, results[i]@).unwrap();
    assert(with == before + chunk);
    assert(before.len() == recorded_start(meta, i));
    assert(with.len() == recorded_start(meta, i + 1));
    assert(chunk =~= with.subrange(before.len() as int, with.len() as int));
    assert(chunk =~= all.subrange(before.len() as int, with.len() as int));
}

proof fn lemma_range_of_read(
    k: nat,
    c: nat,
    meta: VersionMeta,
    results: Seq<Vec<StorageResult<Vec<u8>>>>,
    first: int,
    count: int,
    n: int,
)
    requires
        0 <= first,
        0 <= n <= count,
        first + count <= meta.chunk_checksums@.len() == results.len(),
        decoded_range(k, c, meta, 0, meta.chunk_checksums@.len() as int, results) is Some,
        decoded_range(
            k,
            c,
            meta,
            0,
            meta.chunk_checksums@.len() as int,
            results,
        ).unwrap().len() == meta.data_size,
    ensures
        decoded_range(
            k,
            c,
            meta,
            first,
            n,
            results.subrange(first, first + count),
        ) == Some(
            decoded_range(
                k,
                c,
                meta,
                0,
                meta.chunk_checksums@.len() as int,
                results,
            ).unwrap().subrange(recorded_start(meta, first), recorded_start(meta, first + n)),
        ),
        0 <= recorded_start(meta, first) <= recorded_start(meta, first + n) <= meta.data_size,
    decreases n,
{
    let total = meta.chunk_checksums@.len() as int;
    let all = decoded_range(k, c, meta, 0, total, results).unwrap();
    let part = results.subrange(first, first + count);
    if n > 0 {
        lemma_range_of_read(k, c, meta, results, first, count, n - 1);
        lemma_chunk_in_place(k, c, meta, results, first + n - 1);
        assert(part[n - 1] == results[first + n - 1]);
        let a = recorded_start(meta, first);
        let b = recorded_start(meta, first + n - 1);
        let d = recorded_start(meta, first + n);
        assert(all.subrange(a, b) + all.subrange(b, d) =~= all.subrange(a, d));
    } else {
        if first < total {
            lemma_chunk_in_place(k, c, meta, results, first);
        }
        assert(all.subrange(recorded_start(meta, first), recorded_start(meta, first))
            =~= Seq::empty());
    }
}

/// A byte range of an object is that part of what reading the whole object gives.
///
/// The record has to fit the data: a size that is not that of the data, or more than the chunks on
/// record can hold, makes the two reads differ.
pub proof fn law_range_is_part_of_get(
    store: ChunkStore,
    object_key: Seq<char>,
    meta: VersionMeta,
    start: u64,
    end: u64,
    results: Seq<Vec<StorageResult<Vec<u8>>>>,
    got: StorageResult<ReadChunks>,
    range: StorageResult<RangeRead>,
)
    requires
        object_key.len() > 0,
        results.len() == meta.chunk_checksums@.len(),
        is_get_result(store, meta, results, got),
        got is Ok,
        got.unwrap().data@.len() == meta.data_size,
        meta.data_size <= meta.chunk_checksums@.len() * CHUNK_SIZE_DEFAULT,
        start <= end < got.unwrap().data@.len(),
        is_range_result(
            store,
            object_key,
            meta,
            start,
            end,
            results.subrange(
                chunk_index(start as nat) as int,
                chunk_index(end as nat) as int + 1,
            ),
            range,
        ),
    ensures
        range is Ok,
        range.unwrap().data@ == got.unwrap().data@.subrange(start as int, end + 1),
        range.unwrap().size == got.unwrap().data@.len(),
{
    let k = store.coder.k();
    let c = store.coder.c();
    let total = meta.chunk_checksums@.len() as int;
    let first = chunk_index(start as nat) as int;
    let last = chunk_index(end as nat) as int;
    let all = got.unwrap().data@;
    let count = last - first + 1;
    assert(0 <= first <= last < total);
    assert(range_defect(start, end, meta.data_size as u64) is None);
    lemma_range_of_read(k, c, meta, results, first, count, count);
    let a = recorded_start(meta, first);
    let b = recorded_start(meta, last + 1);
    assert(a == first * CHUNK_SIZE_DEFAULT);
    assert(end < b);
    assert(all.subrange(a, b).subrange(start - a, end - a + 1) =~= all.subrange(
        start as int,
        end + 1,
    ));
}

/// The parts that a stream of a byte range delivers for the first `n` of the chunks that were read
/// from `first` on, one behind the other.
pub open spec fn streamed(
    k: nat,
    c: nat,
    meta: VersionMeta,
    first: int,
    n: int,
    results: Seq<Vec<StorageResult<Vec<u8>>>>,
    start: int,
    end: int,
) -> Option<Seq<u8>>
    decreases n,
{
    if n <= 0 {
        Some(Seq::empty())
    } else {
        match (
            streamed(k, c, meta, first, n - 1, results, start, end),
            decoded_chunk(k, c, meta, first + n - 1, results[n - 1]@),
        ) {
            (Some(head), Some(chunk)) => Some(
                head + part_of(chunk, first + n - 1, start, end),
            ),
            _ => None,
        }
    }
}

/// Whether every chunk that was read is as long as the record says, as those of every object that
/// was written are.
pub open spec fn are_sized(
    k: nat,
    c: nat,
    meta: VersionMeta,
    first: int,
    results: Seq<Vec<StorageResult<Vec<u8>>>>,
) -> bool {
    forall|j: int|
        0 <= j < results.len() ==> ((#[trigger] decoded_chunk(
            k,
            c,
            meta,
            first + j,
            results[j]@,
        )) matches Some(chunk) ==> Some(chunk.len()) == chunk_len_of(
            meta.data_size as nat,
            meta.chunk_checksums@.len(),
            first + j,
        ))
}

proof fn lemma_streamed(
    k: nat,
    c: nat,
    meta: VersionMeta,
    first: int,
    n: int,
    results: Seq<Vec<StorageResult<Vec<u8>>>>,
    start: int,
    end: int,
)
    requires
        0 <= first,
        0 < n <= results.len(),
        first + results.len() <= meta.chunk_checksums@.len(),
        are_sized(k, c, meta, first, results),
        first * CHUNK_SIZE_DEFAULT <= start < (first + 1) * CHUNK_SIZE_DEFAULT,
        start <= end,
        decoded_range(k, c, meta, first, results.len() as int, results) is Some,
        end - first * CHUNK_SIZE_DEFAULT < decoded_range(
            k,
            c,
            meta,
            first,
            results.len() as int,
            results,
        ).unwrap().len(),
    ensures
        ({
            let head = decoded_range(k, c, meta, first, n, results);
            let base = first * CHUNK_SIZE_DEFAULT;
            &&& head is Some
            &&& n < results.len() ==> head.unwrap().len() == n * CHUNK_SIZE_DEFAULT
            &&& start - base <= head.unwrap().len()
            &&& streamed(k, c, meta, first, n, results, start, end) == Some(
                head.unwrap().subrange(
                    start - base,
                    if end - base + 1 < head.unwrap().len() {
                        end - base + 1
                    } else {
                        head.unwrap().len() as int
                    },
                ),
            )
        }),
    decreases n,
{
    let base = first * CHUNK_SIZE_DEFAULT;
    let idx = first + n - 1;
    lemma_some_below(k, c, meta, first, n, results.len() as int, results);
    lemma_some_below(k, c, meta, first, n - 1, results.len() as int, results);
    let head = decoded_range(k, c, meta, first, n, results).unwrap();
    let chunk = decoded_chunk(k, c, meta, idx, results[n - 1]@).unwrap();
    assert(decoded_chunk(k, c, meta, first + (n - 1), results[n - 1]@) == Some(chunk));
    let before = decoded_range(k, c, meta, first, n - 1, results).unwrap();
    assert(head == before + chunk);
    if n < results.len() {
        assert(chunk.len() == CHUNK_SIZE_DEFAULT);
    }
    let part = part_of(chunk, idx, start, end);
    let stop = if end - base + 1 < head.len() {
        end - base + 1
    } else {
        head.len() as int
    };
    if n == 1 {
        assert(head =~= chunk);
        assert(streamed(k, c, meta, first, 0, results, start, end) == Some(Seq::<u8>::empty()));
        assert(Seq::<u8>::empty() + part =~= head.subrange(start - base, stop));
    } else {
        lemma_streamed(k, c, meta, first, n - 1, results, start, end);
        assert(before.len() == (n - 1) * CHUNK_SIZE_DEFAULT);
        assert(idx * CHUNK_SIZE_DEFAULT == base + before.len());
        assert(part_start(idx, chunk.len() as int, start) == 0);
        let earlier = if end - base + 1 < before.len() {
            end - base + 1
        } else {
            before.len() as int
        };
        assert(before.subrange(start - base, earlier) + part =~= head.subrange(start - base, stop));
    }
}

proof fn lemma_some_below(
    k: nat,
    c: nat,
    meta: VersionMeta,
    first: int,
    m: int,
    n: int,
    results: Seq<Vec<StorageResult<Vec<u8>>>>,
)
    requires
        m <= n,
        decoded_range(k, c, meta, first, n, results) is Some,
    ensures
        decoded_range(k, c, meta, first, m, results) is Some,
    decreases n,
{
    if m < n && n > 0 {
        lemma_some_below(k, c, meta, first, m, n - 1, results);
    }
}

/// A stream of a byte range delivers what reading the range gives: the parts of the chunks that the
/// range needs, each once and in order, are the bytes of the range.
pub proof fn law_stream_is_the_range(
    store: ChunkStore,
    object_key: Seq<char>,
    meta: VersionMeta,
    start: u64,
    end: u64,
    results: Seq<Vec<StorageResult<Vec<u8>>>>,
    range: StorageResult<RangeRead>,
)
    requires
        results.len() == chunk_index(end as nat) - chunk_index(start as nat) + 1,
        is_range_result(store, object_key, meta, start, end, results, range),
        range is Ok,
        start <= end,
        meta.chunk_checksums@.len() > 0,
        are_sized(
            store.coder.k(),
            store.coder.c(),
            meta,
            chunk_index(start as nat) as int,
            results,
        ),
    ensures
        streamed(
            store.coder.k(),
            store.coder.c(),
            meta,
            chunk_index(start as nat) as int,
            results.len() as int,
            results,
            start as int,
            end as int,
        ) == Some(range.unwrap().data@),
        range.unwrap().size == meta.data_size,
{
    let k = store.coder.k();
    let c = store.coder.c();
    let first = chunk_index(start as nat) as int;
    lemma_streamed(
        k,
        c,
        meta,
        first,
        results.len() as int,
        results,
        start as int,
        end as int,
    );
}

} // verus!
