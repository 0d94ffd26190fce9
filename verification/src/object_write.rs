//! Writing objects: the data is cut into chunks, and each chunk is encoded as soon as it is full.
use crate::bytes::extend_range;
use crate::checksum::StreamingObjectHash;
use crate::chunk_store::ChunkStore;
use crate::disk::{VersionMeta, VersionStatus, WriteHandle};
use crate::errors::{StorageError, StorageResult};
use crate::metadata_map::MetadataMap;
use crate::object_read::CHUNK_SIZE_DEFAULT;
use vstd::prelude::*;

verus! {

use crate::checksum::{object_hash_of, xxh3};
use crate::chunk_store::{
    appended, appended_one, are_shards_of_payload, is_chunk_encoding, is_payload, payload_of,
};
use crate::disk::{
    entry_offset_of, intact_shard_at, law_shard_is_read_back, lemma_entries_len, mega_file,
    mega_header, shard_entries, shard_entry,
};
use crate::erasure::{is_encoding, rs_parity, rs_supported};
use crate::object_read::{chunk_count, chunk_of, is_stored};
use crate::shards::{
    data_shards_of, lemma_data_shards_hold_payload, lemma_shard_size_monotonic, shard_size_of,
};

/// The format byte of a mega-file: 1 if its chunks are compressed.
pub open spec fn format_of(level: Option<i32>) -> u8 {
    if level is Some {
        1
    } else {
        0
    }
}

/// The shards of disk `i`, one per chunk.
pub open spec fn column(shards: Seq<Seq<Seq<u8>>>, i: int) -> Seq<Seq<u8>> {
    Seq::new(shards.len(), |j: int| shards[j][i])
}

/// The size of the entry that each of `n` disks has of each chunk, from the compressed sizes of the
/// chunks: a header and an equal part of the chunk.
pub open spec fn entry_sizes_of(compressed_sizes: Seq<u32>, n: nat) -> Seq<u64> {
    Seq::new(compressed_sizes.len(), |j: int| (24 + compressed_sizes[j] as nat / n) as u64)
}

/// Whether `data` is written under `meta` to `n` mega-files `files`, as the shards `shards`.
pub open spec fn is_written(
    k: nat,
    c: nat,
    meta: VersionMeta,
    data: Seq<u8>,
    shards: Seq<Seq<Seq<u8>>>,
    files: Seq<Seq<u8>>,
) -> bool {
    &&& is_stored(k, c, meta, data, shards)
    &&& meta.compressed_sizes@.len() == shards.len()
    &&& files.len() == k + c
    &&& forall|j: int|
        0 <= j < shards.len() ==> meta.compressed_sizes@[j] == (#[trigger] shards[j])[0].len() * (k
            + c)
    &&& forall|i: int|
        0 <= i < files.len() ==> #[trigger] files[i] == mega_file(
            format_of(meta.compression_level),
            column(shards, i),
        )
}

/// Whether `meta` describes a version that was just written, as both a put and a streamed write
/// leave it: pending, with the data in the mega-files and no metadata yet.
pub open spec fn is_fresh_write(
    store: ChunkStore,
    meta: VersionMeta,
    data: Seq<u8>,
    shards: Seq<Seq<Seq<u8>>>,
    files: Seq<Seq<u8>>,
) -> bool {
    &&& meta.status == VersionStatus::Pending
    &&& meta.checksum == object_hash_of(data)
    &&& meta.compression_level == store.compression_level
    &&& meta.metadata@ == Map::<Seq<char>, Seq<char>>::empty()
    &&& meta.last_modified@ == Seq::<char>::empty()
    &&& is_written(store.coder.k(), store.coder.c(), meta, data, shards, files)
}

/// The shards of a chunk all have the size of the first one, one per disk.
proof fn lemma_shards_same_size(
    k: nat,
    c: nat,
    level: Option<i32>,
    chunk: Seq<u8>,
    shards: Seq<Seq<u8>>,
)
    requires
        k > 0,
        is_chunk_encoding(k, c, level, chunk, shards),
    ensures
        shards.len() == k + c,
        forall|i: int| 0 <= i < k + c ==> (#[trigger] shards[i]).len() == shards[0].len(),
        payload_of(level, chunk) is Some,
        shards[0].len() == shard_size_of(payload_of(level, chunk).unwrap().len(), k),
{
    let payload = choose|payload: Seq<u8>|
        is_payload(level, chunk, payload) && #[trigger] are_shards_of_payload(
            k,
            c,
            payload,
            shards,
        );
    let data = data_shards_of(payload, k);
    let size = shard_size_of(payload.len(), k);
    assert(is_encoding(k, c, data, size));
    let parity = rs_parity(k, c, data);
    assert forall|i: int| 0 <= i < k + c implies (#[trigger] shards[i]).len() == size by {
        if i < k {
            assert(data[i].len() == size);
        } else {
            assert(parity[i - k].len() == size);
        }
    }
}

/// Every shard of an object that was written is found again, intact, in the mega-file of its disk.
pub proof fn law_written_shard_is_read_back(
    k: nat,
    c: nat,
    meta: VersionMeta,
    data: Seq<u8>,
    shards: Seq<Seq<Seq<u8>>>,
    files: Seq<Seq<u8>>,
    i: int,
    j: int,
)
    requires
        k > 0,
        is_written(k, c, meta, data, shards, files),
        0 <= i < files.len(),
        0 <= j < shards.len(),
    ensures
        intact_shard_at(
            files[i],
            entry_offset_of(entry_sizes_of(meta.compressed_sizes@, k + c), j),
        ) == Some(shards[j][i]),
{
    let col = column(shards, i);
    let sizes = entry_sizes_of(meta.compressed_sizes@, k + c);
    assert forall|m: int| 0 <= m < col.len() implies 24 + (#[trigger] col[m]).len() == sizes[m] by {
        lemma_entry_size(k, c, meta, data, shards, files, i, m);
    }
    law_shard_is_read_back(format_of(meta.compression_level), col, sizes, j);
}

/// The mega-files of an object that was written have the length that the entries of all chunks
/// make.
pub proof fn law_written_file_len(
    k: nat,
    c: nat,
    meta: VersionMeta,
    data: Seq<u8>,
    shards: Seq<Seq<Seq<u8>>>,
    files: Seq<Seq<u8>>,
    i: int,
)
    requires
        k > 0,
        is_written(k, c, meta, data, shards, files),
        0 <= i < files.len(),
    ensures
        files[i].len() == entry_offset_of(
            entry_sizes_of(meta.compressed_sizes@, k + c),
            shards.len() as int,
        ),
{
    let col = column(shards, i);
    let sizes = entry_sizes_of(meta.compressed_sizes@, k + c);
    assert forall|m: int| 0 <= m < col.len() implies 24 + (#[trigger] col[m]).len() == sizes[m] by {
        lemma_entry_size(k, c, meta, data, shards, files, i, m);
    }
    lemma_entries_len(col, sizes);
}

/// A chunk that was written has one shard per disk.
pub proof fn lemma_written_shard_count(
    k: nat,
    c: nat,
    meta: VersionMeta,
    data: Seq<u8>,
    shards: Seq<Seq<Seq<u8>>>,
    files: Seq<Seq<u8>>,
    j: int,
)
    requires
        k > 0,
        is_written(k, c, meta, data, shards, files),
        0 <= j < shards.len(),
    ensures
        shards[j].len() == k + c,
{
    assert(is_chunk_encoding(k, c, meta.compression_level, chunk_of(data, j), shards[j]));
    lemma_shards_same_size(k, c, meta.compression_level, chunk_of(data, j), shards[j]);
}

pub proof fn lemma_entry_size(
    k: nat,
    c: nat,
    meta: VersionMeta,
    data: Seq<u8>,
    shards: Seq<Seq<Seq<u8>>>,
    files: Seq<Seq<u8>>,
    i: int,
    m: int,
)
    requires
        k > 0,
        is_written(k, c, meta, data, shards, files),
        0 <= i < files.len(),
        0 <= m < shards.len(),
    ensures
        24 + shards[m][i].len() == entry_sizes_of(meta.compressed_sizes@, k + c)[m],
{
    assert(is_chunk_encoding(k, c, meta.compression_level, chunk_of(data, m), shards[m]));
    lemma_shards_same_size(k, c, meta.compression_level, chunk_of(data, m), shards[m]);
    let s = shards[m][0].len();
    assert(shards[m][i].len() == shards[m][0].len());
    assert(meta.compressed_sizes@[m] == s * (k + c));
    assert((s * (k + c)) / (k + c) == s) by (nonlinear_arith)
        requires
            k + c > 0,
    ;
}

/// Whether a chunk can be written: it can be encoded, and its encoded size is within its field.
pub open spec fn writes(store: ChunkStore, chunk: Seq<u8>) -> bool {
    store.encodes(chunk) && shard_size_of(
        payload_of(store.compression_level, chunk).unwrap().len(),
        store.coder.k(),
    ) * store.num_disks <= u32::MAX
}

/// Whether the first `n` chunks of `data` can be written.
pub open spec fn writes_chunks(store: ChunkStore, data: Seq<u8>, n: nat) -> bool {
    forall|j: int| 0 <= j < n ==> writes(store, #[trigger] chunk_of(data, j))
}

/// Whether `e` says why a chunk could not be written.
pub open spec fn is_write_error(store: ChunkStore, chunk: Seq<u8>, e: StorageError) -> bool {
    if store.encodes(chunk) {
        e matches StorageError::Transient(m) && m@ == "encoded chunk is too large"@
    } else {
        store.is_encode_error(chunk, e)
    }
}

/// Whether `e` says why the first of the `n` chunks of `data` that cannot be written could not be.
pub open spec fn is_first_write_error(
    store: ChunkStore,
    data: Seq<u8>,
    n: nat,
    e: StorageError,
) -> bool {
    exists|j: int|
        0 <= j < n && writes_chunks(store, data, j as nat) && !writes(
            store,
            #[trigger] chunk_of(data, j),
        ) && is_write_error(store, chunk_of(data, j), e)
}

/// Whether the counts alone decide that every chunk can be written: chunks are not compressed, the
/// Reed-Solomon code supports the counts, and the size of an encoded chunk is within its field.
pub open spec fn can_encode(store: ChunkStore) -> bool {
    &&& store.compression_level is None
    &&& rs_supported(store.coder.k(), store.coder.c())
    &&& shard_size_of(CHUNK_SIZE_DEFAULT as nat, store.coder.k()) * store.num_disks <= u32::MAX
}

/// Without compression, every chunk can be written where the counts are supported.
pub proof fn law_plain_chunks_are_written(store: ChunkStore, chunk: Seq<u8>)
    requires
        store.wf(),
        can_encode(store),
        0 < chunk.len() <= CHUNK_SIZE_DEFAULT,
    ensures
        writes(store, chunk),
{
    let k = store.coder.k();
    let a = shard_size_of(chunk.len(), k);
    let b = shard_size_of(CHUNK_SIZE_DEFAULT as nat, k);
    lemma_shard_size_monotonic(chunk.len(), CHUNK_SIZE_DEFAULT as nat, k);
    assert(a * store.num_disks <= b * store.num_disks) by (nonlinear_arith)
        requires
            a <= b,
            store.num_disks >= 0,
    ;
    lemma_data_shards_hold_payload(chunk, k);
    assert(data_shards_of(chunk, k)[0].len() == a);
}

/// An object that is being written.
pub struct ObjectWriter {
    version: u64,
    compression_level: Option<i32>,
    handles: Vec<Option<WriteHandle>>,
    buffer: Vec<u8>,
    checksums: Vec<u128>,
    sizes: Vec<u32>,
    hasher: StreamingObjectHash,
    data_size: usize,
    fed: Ghost<Seq<u8>>,
    shards: Ghost<Seq<Seq<Seq<u8>>>>,
    drained: Ghost<Seq<Seq<u8>>>,
}

/// An object whose data has been written.
pub struct WrittenObject {
    /// The metadata of the version, which is still pending.
    pub meta: VersionMeta,
    /// The mega-files, with the bytes that have not been drained.
    pub handles: Vec<Option<WriteHandle>>,
}

/// Full chunk `j` of the data.
spec fn full_chunk(fed: Seq<u8>, j: int) -> Seq<u8> {
    fed.subrange(j * CHUNK_SIZE_DEFAULT, (j + 1) * CHUNK_SIZE_DEFAULT)
}

/// Whether chunk `j` of `chunks` is encoded as `shards`, with checksum and size on record.
spec fn chunk_is_written(
    k: nat,
    c: nat,
    level: Option<i32>,
    chunk: Seq<u8>,
    shards: Seq<Seq<u8>>,
    checksum: u128,
    size: u32,
) -> bool {
    is_chunk_encoding(k, c, level, chunk, shards) && checksum == xxh3(chunk) && size
        == shards[0].len() * (k + c)
}

impl ObjectWriter {
    /// The data fed so far.
    pub closed spec fn data(self) -> Seq<u8> {
        self.fed@
    }

    /// The bytes of the mega-file of disk `i` that have been drained.
    pub closed spec fn drained_of(self, i: int) -> Seq<u8> {
        self.drained@[i]
    }

    /// The bytes of the mega-file of disk `i` that have not been drained.
    pub closed spec fn pending_of(self, i: int) -> Seq<u8> {
        self.handles@[i].unwrap()@
    }

    /// The bytes of the mega-file of disk `i` so far, drained or not.
    pub open spec fn file(self, i: int) -> Seq<u8> {
        self.drained_of(i) + self.pending_of(i)
    }

    /// The version that is being written.
    pub closed spec fn number(self) -> u64 {
        self.version
    }

    /// All full chunks are encoded, the rest of the data is in the buffer, and the mega-files hold
    /// the shards of the chunks.
    pub closed spec fn wf(self, store: ChunkStore) -> bool {
        let k = store.coder.k();
        let c = store.coder.c();
        let m = self.shards@.len();
        &&& store.wf()
        &&& self.compression_level == store.compression_level
        &&& self.hasher@ == self.fed@
        &&& self.data_size == self.fed@.len()
        &&& self.buffer@.len() < CHUNK_SIZE_DEFAULT
        &&& m * CHUNK_SIZE_DEFAULT + self.buffer@.len() == self.fed@.len()
        &&& self.buffer@ == self.fed@.skip((m * CHUNK_SIZE_DEFAULT) as int)
        &&& self.files_wf(store)
        &&& forall|j: int|
            0 <= j < m ==> #[trigger] chunk_is_written(
                k,
                c,
                self.compression_level,
                full_chunk(self.fed@, j),
                self.shards@[j],
                self.checksums@[j],
                self.sizes@[j],
            )
        &&& forall|j: int| 0 <= j < m ==> writes(store, #[trigger] full_chunk(self.fed@, j))
    }

    closed spec fn files_wf(self, store: ChunkStore) -> bool {
        let m = self.shards@.len();
        &&& self.checksums@.len() == m
        &&& self.sizes@.len() == m
        &&& self.handles@.len() == store.num_disks
        &&& self.drained@.len() == store.num_disks
        &&& forall|i: int|
            0 <= i < store.num_disks ==> (#[trigger] self.handles@[i]) is Some && self.file(i)
                == mega_file(format_of(self.compression_level), column(self.shards@, i))
    }

    /// Start writing an object.
    pub fn new(store: &ChunkStore, version: u64) -> (r: Self)
        requires
            store.wf(),
        ensures
            r.wf(*store),
            r.data() == Seq::<u8>::empty(),
            r.number() == version,
            forall|i: int|
                0 <= i < store.num_disks ==> #[trigger] r.drained_of(i) == Seq::<u8>::empty(),
    {
        let format: u8 = if store.compression_level.is_some() {
            1
        } else {
            0
        };
        let mut handles: Vec<Option<WriteHandle>> = Vec::new();
        let mut i: usize = 0;
        while i < store.disks.len()
            invariant
                i <= store.disks@.len(),
                format == format_of(store.compression_level),
                handles@.len() == i,
                forall|m: int|
                    0 <= m < i ==> (#[trigger] handles@[m]) is Some && handles@[m].unwrap()@
                        == mega_header(format),
            decreases store.disks.len() - i,
        {
            handles.push(
                Some(store.disks[i].open_write(version, CHUNK_SIZE_DEFAULT as u32, format)),
            );
            i += 1;
        }
        let w = ObjectWriter {
            version,
            compression_level: store.compression_level,
            handles,
            buffer: Vec::new(),
            checksums: Vec::new(),
            sizes: Vec::new(),
            hasher: StreamingObjectHash::new(),
            data_size: 0,
            fed: Ghost(Seq::empty()),
            shards: Ghost(Seq::empty()),
            drained: Ghost(Seq::new(store.num_disks as nat, |i: int| Seq::empty())),
        };
        proof {
            assert forall|i: int| 0 <= i < store.num_disks implies (#[trigger] w.handles@[i])
                is Some && w.file(i) == mega_file(format, column(w.shards@, i)) by {
                assert(column(w.shards@, i) =~= Seq::empty());
                assert(w.file(i) =~= mega_file(format, column(w.shards@, i)));
            }
            assert(w.buffer@ =~= w.fed@.skip(0));
        }
        w
    }

    /// Encode the bytes in the buffer as the next chunk.
    fn flush(&mut self, store: &ChunkStore) -> (r: StorageResult<()>)
        requires
            old(self).files_wf(*store),
            store.wf(),
            old(self).compression_level == store.compression_level,
            old(self).buffer@.len() > 0,
        ensures
            final(self).fed == old(self).fed,
            final(self).drained == old(self).drained,
            final(self).version == old(self).version,
            final(self).hasher == old(self).hasher,
            final(self).data_size == old(self).data_size,
            final(self).compression_level == old(self).compression_level,
            r is Ok ==> final(self).files_wf(*store),
            r is Ok ==> final(self).shards@.len() == old(self).shards@.len() + 1,
            r is Ok ==> final(self).shards@.drop_last() == old(self).shards@,
            r is Ok ==> final(self).checksums@.drop_last() == old(self).checksums@,
            r is Ok ==> final(self).sizes@.drop_last() == old(self).sizes@,
            r is Ok ==> final(self).buffer@.len() == 0,
            r is Ok ==> chunk_is_written(
                store.coder.k(),
                store.coder.c(),
                store.compression_level,
                old(self).buffer@,
                final(self).shards@.last(),
                final(self).checksums@.last(),
                final(self).sizes@.last(),
            ),
            r is Ok <==> writes(*store, old(self).buffer@),
            r matches Err(e) ==> is_write_error(*store, old(self).buffer@, e),
    {
        let ghost before = self.handles@;
        let ghost start = *self;
        let mut handles: Vec<Option<WriteHandle>> = Vec::new();
        std::mem::swap(&mut handles, &mut self.handles);
        let outcome = store.encode_and_append(self.buffer.as_slice(), &mut handles);
        let ghost after = handles@;
        self.handles = handles;
        match outcome {
            Ok((checksum, shard_size)) => {
                let ghost group = choose|shards: Seq<Seq<u8>>| #[trigger]
                    is_chunk_encoding(
                        store.coder.k(),
                        store.coder.c(),
                        store.compression_level,
                        self.buffer@,
                        shards,
                    ) && shard_size == shards[0].len() && appended(
                        before,
                        after,
                        shards,
                    );
                proof {
                    lemma_shards_same_size(
                        store.coder.k(),
                        store.coder.c(),
                        store.compression_level,
                        self.buffer@,
                        group,
                    );
                }
                let disks: u64 = store.num_disks as u64;
                assert(disks == store.num_disks);
                let compressed_size: u64 = shard_size * disks;
                if compressed_size > u32::MAX as u64 {
                    return Err(
                        StorageError::Transient("encoded chunk is too large".to_owned()),
                    );
                }
                self.checksums.push(checksum);
                self.sizes.push(compressed_size as u32);
                self.shards = Ghost(start.shards@.push(group));
                self.buffer = Vec::new();
                proof {
                    assert(self.shards@.drop_last() =~= start.shards@);
                    assert(self.checksums@.drop_last() =~= start.checksums@);
                    assert(self.sizes@.drop_last() =~= start.sizes@);
                    assert forall|i: int| 0 <= i < store.num_disks implies (
                    #[trigger] self.handles@[i]) is Some && self.file(i) == mega_file(
                        format_of(self.compression_level),
                        column(self.shards@, i),
                    ) by {
                        assert(before[i] is Some);
                        assert(appended_one(before[i], after[i], group[i]));
                        let old_col = column(start.shards@, i);
                        let new_col = column(self.shards@, i);
                        assert(new_col.drop_last() =~= old_col);
                        assert(new_col.last() == group[i]);
                        assert(start.file(i) == mega_file(
                            format_of(self.compression_level),
                            old_col,
                        ));
                        assert(shard_entries(new_col) == shard_entries(old_col) + shard_entry(
                            group[i],
                        ));
                        assert(after[i].unwrap()@ == before[i].unwrap()@ + shard_entry(group[i]));
                        assert(self.file(i) =~= start.file(i) + shard_entry(group[i]));
                        assert(self.file(i) =~= mega_file(
                            format_of(self.compression_level),
                            new_col,
                        ));
                    }
                }
                Ok(())
            },
            Err(e) => Err(e),
        }
    }

    /// Feed more data. A failed write leaves the writer unusable.
    pub fn write(&mut self, store: &ChunkStore, data: &[u8]) -> (r: StorageResult<()>)
        requires
            old(self).wf(*store),
            old(self).data().len() + data@.len() <= usize::MAX,
        ensures
            r is Ok ==> final(self).wf(*store) && final(self).data() == old(self).data() + data@,
            final(self).number() == old(self).number(),
            forall|i: int| #[trigger] final(self).drained_of(i) == old(self).drained_of(i),
            r is Ok <==> writes_chunks(
                *store,
                old(self).data() + data@,
                (old(self).data().len() + data@.len()) as nat / CHUNK_SIZE_DEFAULT as nat,
            ),
            r matches Err(e) ==> is_first_write_error(
                *store,
                old(self).data() + data@,
                (old(self).data().len() + data@.len()) as nat / CHUNK_SIZE_DEFAULT as nat,
                e,
            ),
    {
        let ghost whole = self.fed@ + data@;
        let ghost full = whole.len() / CHUNK_SIZE_DEFAULT as nat;
        let ghost origin = self.fed@;
        let mut pos: usize = 0;
        assert(data@.take(0) =~= Seq::empty());
        assert(origin + data@.take(0) =~= origin);
        while pos < data.len()
            invariant
                pos <= data@.len(),
                self.wf(*store),
                origin.len() + data@.len() <= usize::MAX,
                self.fed@ == origin + data@.take(pos as int),
                origin == old(self).fed@,
                whole == origin + data@,
                full == whole.len() / CHUNK_SIZE_DEFAULT as nat,
                self.version == old(self).version,
                self.drained@ == old(self).drained@,
            decreases data.len() - pos,
        {
            let room: usize = CHUNK_SIZE_DEFAULT - self.buffer.len();
            let rest: usize = data.len() - pos;
            let n: usize = if rest < room {
                rest
            } else {
                room
            };
            let ghost start = *self;
            let ghost piece = data@.subrange(pos as int, pos + n);
            let ghost m = self.shards@.len();
            self.hasher.update(&data[pos..pos + n]);
            extend_range(&mut self.buffer, data, pos, pos + n);
            self.data_size = self.data_size + n;
            self.fed = Ghost(start.fed@ + piece);
            proof {
                assert(self.fed@ =~= origin + data@.take(pos + n));
                assert(self.buffer@ =~= self.fed@.skip((m * CHUNK_SIZE_DEFAULT) as int));
                assert forall|i: int| 0 <= i < store.num_disks implies (
                #[trigger] self.handles@[i]) is Some && self.file(i) == mega_file(
                    format_of(self.compression_level),
                    column(self.shards@, i),
                ) by {
                    assert(start.handles@[i] is Some);
                    assert(self.file(i) == start.file(i));
                }
                assert forall|j: int| 0 <= j < m implies full_chunk(self.fed@, j)
                    == #[trigger] full_chunk(start.fed@, j) by {
                    assert((j + 1) * CHUNK_SIZE_DEFAULT <= m * CHUNK_SIZE_DEFAULT);
                    assert(full_chunk(self.fed@, j) =~= full_chunk(start.fed@, j));
                }
                assert forall|j: int| 0 <= j < m implies writes(
                    *store,
                    #[trigger] full_chunk(self.fed@, j),
                ) by {
                    assert(full_chunk(self.fed@, j) == full_chunk(start.fed@, j));
                }
            }
            if self.buffer.len() == CHUNK_SIZE_DEFAULT {
                let ghost mid = *self;
                proof {
                    lemma_full_chunks(whole, self.fed@, *store, m);
                    assert(mid.buffer@ =~= full_chunk(self.fed@, m as int));
                    lemma_full_chunk(whole, self.fed@, m as int);
                }
                match self.flush(store) {
                    Ok(()) => {},
                    Err(e) => {
                        proof {
                            assert(!writes(*store, chunk_of(whole, m as int)));
                            assert(is_first_write_error(*store, whole, full, e));
                        }
                        return Err(e);
                    },
                }
                proof {
                    assert(mid.buffer@ =~= full_chunk(self.fed@, m as int));
                    assert((m + 1) * CHUNK_SIZE_DEFAULT == m * CHUNK_SIZE_DEFAULT
                        + CHUNK_SIZE_DEFAULT);
                    assert(self.buffer@ =~= self.fed@.skip(((m + 1) * CHUNK_SIZE_DEFAULT) as int));
                    assert forall|j: int| 0 <= j < m + 1 implies #[trigger] chunk_is_written(
                        store.coder.k(),
                        store.coder.c(),
                        self.compression_level,
                        full_chunk(self.fed@, j),
                        self.shards@[j],
                        self.checksums@[j],
                        self.sizes@[j],
                    ) by {
                        if j < m {
                            assert(self.shards@[j] == self.shards@.drop_last()[j]);
                            assert(self.checksums@[j] == self.checksums@.drop_last()[j]);
                            assert(self.sizes@[j] == self.sizes@.drop_last()[j]);
                            assert(full_chunk(self.fed@, j) == full_chunk(start.fed@, j));
                            assert(chunk_is_written(
                                store.coder.k(),
                                store.coder.c(),
                                start.compression_level,
                                full_chunk(start.fed@, j),
                                start.shards@[j],
                                start.checksums@[j],
                                start.sizes@[j],
                            ));
                        }
                    }
                }
            } else {
                proof {
                    assert forall|j: int| 0 <= j < m implies #[trigger] chunk_is_written(
                        store.coder.k(),
                        store.coder.c(),
                        self.compression_level,
                        full_chunk(self.fed@, j),
                        self.shards@[j],
                        self.checksums@[j],
                        self.sizes@[j],
                    ) by {
                        assert(full_chunk(self.fed@, j) == full_chunk(start.fed@, j));
                        assert(chunk_is_written(
                            store.coder.k(),
                            store.coder.c(),
                            start.compression_level,
                            full_chunk(start.fed@, j),
                            start.shards@[j],
                            start.checksums@[j],
                            start.sizes@[j],
                        ));
                    }
                }
            }
            pos += n;
        }
        assert(data@.take(data@.len() as int) =~= data@);
        proof {
            lemma_full_chunks(whole, self.fed@, *store, self.shards@.len());
            assert(full == self.shards@.len());
        }
        Ok(())
    }

    /// Hand out the bytes of the mega-file of disk `i` that have not been handed out before.
    pub fn drain(&mut self, store: &ChunkStore, i: usize) -> (r: Vec<u8>)
        requires
            old(self).wf(*store),
            i < store.num_disks,
        ensures
            final(self).wf(*store),
            final(self).data() == old(self).data(),
            final(self).number() == old(self).number(),
            r@ == old(self).pending_of(i as int),
            final(self).drained_of(i as int) == old(self).drained_of(i as int) + r@,
            final(self).pending_of(i as int) == Seq::<u8>::empty(),
            forall|m: int|
                0 <= m < store.num_disks ==> #[trigger] final(self).file(m) == old(self).file(m),
    {
        let ghost start = *self;
        let mut slot: Option<WriteHandle> = None;
        std::mem::swap(&mut slot, &mut self.handles[i]);
        let mut out: Vec<u8> = Vec::new();
        let updated: Option<WriteHandle> = match slot {
            Some(h) => {
                let mut handle = h;
                out = handle.drain();
                Some(handle)
            },
            None => None,
        };
        self.handles.set(i, updated);
        self.drained = Ghost(start.drained@.update(i as int, start.drained@[i as int] + out@));
        proof {
            assert(start.handles@[i as int] is Some);
            assert forall|m: int| 0 <= m < store.num_disks implies #[trigger] self.file(m)
                == start.file(m) by {
                assert(start.handles@[m] is Some);
                assert(self.file(m) =~= start.file(m));
            }
            assert forall|m: int| 0 <= m < store.num_disks implies (#[trigger] self.handles@[m])
                is Some && self.file(m) == mega_file(
                format_of(self.compression_level),
                column(self.shards@, m),
            ) by {
                assert(start.handles@[m] is Some);
                assert(self.file(m) == start.file(m));
            }
        }
        out
    }

    /// Finish the object: encode what is left in the buffer and give the metadata of the pending
    /// version.
    pub fn finish(self, store: &ChunkStore) -> (r: StorageResult<WrittenObject>)
        requires
            self.wf(*store),
        ensures
            r matches Ok(w) ==> w.meta.version == self.number(),
            // The mega-files hold the data.
            r matches Ok(w) ==> exists|shards: Seq<Seq<Seq<u8>>>, files: Seq<Seq<u8>>| #[trigger]
                is_fresh_write(*store, w.meta, self.data(), shards, files) && final_files(
                    self,
                    w.handles@,
                    files,
                ),
            r is Ok <==> writes_chunks(*store, self.data(), chunk_count(self.data().len())),
            r matches Err(e) ==> is_first_write_error(
                *store,
                self.data(),
                chunk_count(self.data().len()),
                e,
            ),
    {
        let mut w = self;
        let ghost k = store.coder.k();
        let ghost c = store.coder.c();
        let ghost m = self.shards@.len();
        proof {
            lemma_chunk_count(self.fed@.len(), m, self.buffer@.len());
            lemma_full_chunks(self.fed@, self.fed@, *store, m);
        }
        if w.buffer.len() > 0 {
            assert(chunk_of(self.fed@, m as int) =~= self.buffer@);
            match w.flush(store) {
                Ok(()) => {},
                Err(e) => {
                    proof {
                        assert(!writes(*store, chunk_of(self.fed@, m as int)));
                        assert(is_first_write_error(
                            *store,
                            self.fed@,
                            chunk_count(self.fed@.len()),
                            e,
                        ));
                    }
                    return Err(e);
                },
            }
        }
        let ghost shards = w.shards@;
        let ghost files = Seq::new(store.num_disks as nat, |i: int| w.file(i));
        let ghost done = w;
        let version: u64 = w.version;
        let data_size: usize = w.data_size;
        let compression_level: Option<i32> = w.compression_level;
        let meta = VersionMeta {
            version,
            chunk_checksums: w.checksums,
            checksum: w.hasher.finalize(),
            status: VersionStatus::Pending,
            data_size,
            last_modified: String::new(),
            metadata: MetadataMap::new(),
            compression_level,
            compressed_sizes: w.sizes,
        };
        proof {
            let data = self.fed@;
            lemma_chunk_count(data.len(), m, self.buffer@.len());
            assert forall|j: int| 0 <= j < shards.len() implies chunk_is_written(
                k,
                c,
                compression_level,
                chunk_of(data, j),
                #[trigger] shards[j],
                meta.chunk_checksums@[j],
                meta.compressed_sizes@[j],
            ) by {
                if j < m {
                    assert((j + 1) * CHUNK_SIZE_DEFAULT <= m * CHUNK_SIZE_DEFAULT);
                    assert(chunk_of(data, j) =~= full_chunk(data, j));
                    if self.buffer@.len() > 0 {
                        assert(shards[j] == shards.drop_last()[j]);
                        assert(done.checksums@[j] == done.checksums@.drop_last()[j]);
                        assert(done.sizes@[j] == done.sizes@.drop_last()[j]);
                    }
                    assert(chunk_is_written(
                        k,
                        c,
                        self.compression_level,
                        full_chunk(data, j),
                        self.shards@[j],
                        self.checksums@[j],
                        self.sizes@[j],
                    ));
                } else {
                    assert(j == m);
                    assert(chunk_of(data, j) =~= self.buffer@);
                }
            }
            assert forall|j: int| 0 <= j < shards.len() implies #[trigger] is_chunk_encoding(
                k,
                c,
                meta.compression_level,
                chunk_of(data, j),
                shards[j],
            ) && meta.chunk_checksums@[j] == xxh3(chunk_of(data, j)) by {
                assert(chunk_is_written(
                    k,
                    c,
                    compression_level,
                    chunk_of(data, j),
                    shards[j],
                    meta.chunk_checksums@[j],
                    meta.compressed_sizes@[j],
                ));
            }
            assert forall|i: int| 0 <= i < files.len() implies #[trigger] files[i] == mega_file(
                format_of(meta.compression_level),
                column(shards, i),
            ) by {
                assert(done.handles@[i] is Some);
            }
            assert(is_written(k, c, meta, data, shards, files));
        }
        let out = WrittenObject { meta, handles: w.handles };
        proof {
            assert(final_files(self, out.handles@, files));
            assert(is_fresh_write(*store, out.meta, self.data(), shards, files));
        }
        Ok(out)
    }
}

/// Whether `files` are the mega-files that a writer leaves: what was drained from it, with what
/// the handles still hold behind it.
pub open spec fn final_files(
    w: ObjectWriter,
    handles: Seq<Option<WriteHandle>>,
    files: Seq<Seq<u8>>,
) -> bool {
    files.len() == handles.len() && forall|i: int|
        0 <= i < files.len() ==> #[trigger] files[i] == w.drained_of(i) + handles[i].unwrap()@
}

/// A full chunk of what was fed so far is a chunk of the whole data.
proof fn lemma_full_chunk(whole: Seq<u8>, fed: Seq<u8>, j: int)
    requires
        fed.is_prefix_of(whole),
        0 <= j,
        (j + 1) * CHUNK_SIZE_DEFAULT <= fed.len(),
    ensures
        chunk_of(whole, j) == full_chunk(fed, j),
        j < whole.len() / CHUNK_SIZE_DEFAULT as nat,
{
    assert(chunk_of(whole, j) =~= full_chunk(fed, j)) by {
        assert forall|i: int| 0 <= i < fed.len() implies fed[i] == #[trigger] whole[i] by {
            assert(whole.subrange(0, fed.len() as int)[i] == fed[i]);
        }
    }
}

/// What stopped a full chunk stops the whole object.
pub proof fn lemma_full_chunk_failure(store: ChunkStore, data: Seq<u8>, e: StorageError)
    requires
        is_first_write_error(store, data, data.len() / CHUNK_SIZE_DEFAULT as nat, e),
    ensures
        is_first_write_error(store, data, chunk_count(data.len()), e),
        !writes_chunks(store, data, chunk_count(data.len())),
{
    let n = data.len() / CHUNK_SIZE_DEFAULT as nat;
    let j = choose|j: int|
        0 <= j < n && writes_chunks(store, data, j as nat) && !writes(
            store,
            #[trigger] chunk_of(data, j),
        ) && is_write_error(store, chunk_of(data, j), e);
    assert(n <= chunk_count(data.len()));
    assert(!writes(store, chunk_of(data, j)));
}

proof fn lemma_full_chunks(whole: Seq<u8>, fed: Seq<u8>, store: ChunkStore, m: nat)
    requires
        fed.is_prefix_of(whole),
        m * CHUNK_SIZE_DEFAULT <= fed.len(),
        forall|j: int| 0 <= j < m ==> writes(store, #[trigger] full_chunk(fed, j)),
    ensures
        writes_chunks(store, whole, m),
{
    assert forall|j: int| 0 <= j < m implies writes(store, #[trigger] chunk_of(whole, j)) by {
        assert((j + 1) * CHUNK_SIZE_DEFAULT <= m * CHUNK_SIZE_DEFAULT) by (nonlinear_arith)
            requires
                j + 1 <= m,
        ;
        lemma_full_chunk(whole, fed, j);
        assert(writes(store, full_chunk(fed, j)));
    }
}

proof fn lemma_chunk_count(len: nat, m: nat, rest: nat)
    requires
        m * CHUNK_SIZE_DEFAULT + rest == len,
        rest < CHUNK_SIZE_DEFAULT,
    ensures
        chunk_count(len) == if rest > 0 {
            m + 1
        } else {
            m
        },
{
}

} // verus!
