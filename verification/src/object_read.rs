//! Reading objects: chunks, whole objects and byte ranges.
use crate::bytes::extend_range;
use crate::chunk_store::{ChunkStore, RecoveredChunk};
use crate::disk::VersionMeta;
use crate::errors::{StorageError, StorageResult};
use vstd::prelude::*;

verus! {

use crate::checksum::xxh3;
use crate::chunk_store::{
    chunk_content, correction_pairs, corrections_of, cut_to, is_chunk_encoding, read_shards,
};
use crate::erasure::{decodable, decoded_shards, parts_of, survivors};

/// Size of a chunk: 64 MiB.
pub const CHUNK_SIZE_DEFAULT: usize = 67_108_864;

/// The number of chunks of `len` bytes.
pub open spec fn chunk_count(len: nat) -> nat {
    (len + CHUNK_SIZE_DEFAULT - 1) as nat / CHUNK_SIZE_DEFAULT as nat
}

/// Where chunk `i` ends in `len` bytes.
pub open spec fn chunk_end(len: nat, i: int) -> int {
    if (i + 1) * CHUNK_SIZE_DEFAULT <= len {
        (i + 1) * CHUNK_SIZE_DEFAULT
    } else {
        len as int
    }
}

/// Chunk `i` of `data`.
pub open spec fn chunk_of(data: Seq<u8>, i: int) -> Seq<u8> {
    data.subrange(i * CHUNK_SIZE_DEFAULT, chunk_end(data.len(), i))
}

/// The number of bytes of chunk `i` of `total`, if the data size fits the number of chunks.
pub open spec fn chunk_len_of(data_size: nat, total: nat, i: int) -> Option<nat> {
    if i != total - 1 {
        Some(CHUNK_SIZE_DEFAULT as nat)
    } else if data_size >= i * CHUNK_SIZE_DEFAULT {
        Some((data_size - i * CHUNK_SIZE_DEFAULT) as nat)
    } else {
        None
    }
}

/// Whether `data` is stored under `meta` as `shards`, one group of shards per chunk.
pub open spec fn is_stored(
    k: nat,
    c: nat,
    meta: VersionMeta,
    data: Seq<u8>,
    shards: Seq<Seq<Seq<u8>>>,
) -> bool {
    &&& meta.data_size == data.len()
    &&& meta.chunk_checksums@.len() == chunk_count(data.len())
    &&& shards.len() == chunk_count(data.len())
    &&& forall|i: int|
        0 <= i < shards.len() ==> #[trigger] is_chunk_encoding(
            k,
            c,
            meta.compression_level,
            chunk_of(data, i),
            shards[i],
        ) && meta.chunk_checksums@[i] == xxh3(chunk_of(data, i))
}

/// Whether enough of the shards of a chunk were read: at most as many are missing as there are
/// parity shards, and those that are there are unchanged.
pub open spec fn enough_shards(
    k: nat,
    shards: Seq<Seq<u8>>,
    results: Seq<StorageResult<Vec<u8>>>,
) -> bool {
    parts_of(shards, read_shards(results)) && survivors(read_shards(results)) >= k
}

/// The content of chunk `i` of an object, from the shards that could be read.
pub open spec fn decoded_chunk(
    k: nat,
    c: nat,
    meta: VersionMeta,
    i: int,
    results: Seq<StorageResult<Vec<u8>>>,
) -> Option<Seq<u8>> {
    let s = read_shards(results);
    let size = chunk_len_of(meta.data_size as nat, meta.chunk_checksums@.len(), i);
    let content = chunk_content(k, c, meta.compression_level is Some, s);
    if size is Some && decodable(k, c, s) && content is Some && xxh3(
        cut_to(content.unwrap(), size.unwrap()),
    ) == meta.chunk_checksums@[i] {
        Some(
            if size.unwrap() <= content.unwrap().len() {
                content.unwrap().take(size.unwrap() as int)
            } else {
                content.unwrap()
            },
        )
    } else {
        None
    }
}

/// Whether `e` is the error of reading chunk `i` of an object.
pub open spec fn is_chunk_error(
    k: nat,
    c: nat,
    meta: VersionMeta,
    i: int,
    results: Seq<StorageResult<Vec<u8>>>,
    e: StorageError,
) -> bool {
    let s = read_shards(results);
    let size = chunk_len_of(meta.data_size as nat, meta.chunk_checksums@.len(), i);
    let content = chunk_content(k, c, meta.compression_level is Some, s);
    if size is None {
        e matches StorageError::KvError(m) && m@ == "data size does not match chunk count"@
    } else if survivors(s) < k {
        e is TooManyFailures
    } else if !decodable(k, c, s) {
        e is ReedSolomonError
    } else if content is None {
        e matches StorageError::Transient(m) && "zstd decode shard: "@.is_prefix_of(m@)
    } else {
        e == (StorageError::ChecksumMismatch {
            expected: meta.chunk_checksums@[i],
            actual: xxh3(cut_to(content.unwrap(), size.unwrap())),
        })
    }
}

/// The content of `count` chunks from `first` on, one behind the other; `results` holds the reads
/// of these chunks.
pub open spec fn decoded_range(
    k: nat,
    c: nat,
    meta: VersionMeta,
    first: int,
    count: int,
    results: Seq<Vec<StorageResult<Vec<u8>>>>,
) -> Option<Seq<u8>>
    decreases count,
{
    if count <= 0 {
        Some(Seq::empty())
    } else {
        match (
            decoded_range(k, c, meta, first, count - 1, results),
            decoded_chunk(k, c, meta, first + count - 1, results[count - 1]@),
        ) {
            (Some(head), Some(tail)) => Some(head + tail),
            _ => None,
        }
    }
}

/// Chunks that were read, one behind the other, with the corrections that reading them gave.
pub struct ReadChunks {
    /// The data of the chunks.
    pub data: Vec<u8>,
    /// For each chunk, index and data of each shard that could not be read.
    pub corrections: Vec<Vec<(usize, Vec<u8>)>>,
}

/// The number of bytes of chunk `i` of an object.
pub fn chunk_len(meta: &VersionMeta, i: usize) -> (r: Option<usize>)
    requires
        i < meta.chunk_checksums@.len(),
    ensures
        r is Some <==> chunk_len_of(
            meta.data_size as nat,
            meta.chunk_checksums@.len(),
            i as int,
        ) is Some,
        r matches Some(n) ==> chunk_len_of(
            meta.data_size as nat,
            meta.chunk_checksums@.len(),
            i as int,
        ) == Some(n as nat),
{
    if i != meta.chunk_checksums.len() - 1 {
        return Some(CHUNK_SIZE_DEFAULT);
    }
    let start: u128 = i as u128 * CHUNK_SIZE_DEFAULT as u128;
    if meta.data_size as u128 >= start {
        Some((meta.data_size as u128 - start) as usize)
    } else {
        None
    }
}

impl ChunkStore {
    /// Decode chunk `i` of an object from the shards that could be read. The data is cut to the
    /// chunk's size and verified against its checksum.
    pub fn decode_chunk(
        &self,
        meta: &VersionMeta,
        i: usize,
        results: &[StorageResult<Vec<u8>>],
    ) -> (r: StorageResult<RecoveredChunk>)
        requires
            self.wf(),
            i < meta.chunk_checksums@.len(),
            results@.len() == self.num_disks,
        ensures
            r is Ok <==> decoded_chunk(
                self.coder.k(),
                self.coder.c(),
                *meta,
                i as int,
                results@,
            ) is Some,
            r matches Ok(chunk) ==> decoded_chunk(
                self.coder.k(),
                self.coder.c(),
                *meta,
                i as int,
                results@,
            ) == Some(chunk.data@) && correction_pairs(chunk.corrections@) == corrections_of(
                read_shards(results@),
                decoded_shards(self.coder.k(), self.coder.c(), read_shards(results@)),
                results@.len() as int,
            ),
            r matches Err(e) ==> is_chunk_error(
                self.coder.k(),
                self.coder.c(),
                *meta,
                i as int,
                results@,
                e,
            ),
            // Enough shards of a chunk give the chunk, and all its shards, back.
            forall|data: Seq<u8>, shards: Seq<Seq<Seq<u8>>>| #[trigger]
                is_stored(self.coder.k(), self.coder.c(), *meta, data, shards) && enough_shards(
                    self.coder.k(),
                    shards[i as int],
                    results@,
                ) ==> r is Ok && r.unwrap().data@ == chunk_of(data, i as int) && correction_pairs(
                    r.unwrap().corrections@,
                ) == corrections_of(
                    read_shards(results@),
                    shards[i as int],
                    results@.len() as int,
                ),
    {
        let ghost k = self.coder.k();
        let ghost c = self.coder.c();
        proof {
            assert forall|data: Seq<u8>, shards: Seq<Seq<Seq<u8>>>| #[trigger]
                is_stored(k, c, *meta, data, shards) implies chunk_len_of(
                meta.data_size as nat,
                meta.chunk_checksums@.len(),
                i as int,
            ) == Some(chunk_of(data, i as int).len()) && chunk_of(data, i as int).len() > 0 by {
                lemma_chunk_len(data, i as int);
            }
        }
        let size: usize = match chunk_len(meta, i) {
            Some(size) => size,
            None => {
                return Err(
                    StorageError::KvError("data size does not match chunk count".to_owned()),
                );
            },
        };
        let recovered = match self.recover_chunk(
            meta.chunk_checksums[i],
            size,
            meta.compression_level.is_some(),
            results,
        ) {
            Ok(recovered) => recovered,
            Err(e) => {
                proof {
                    assert forall|data: Seq<u8>, shards: Seq<Seq<Seq<u8>>>| #[trigger]
                        is_stored(k, c, *meta, data, shards) && enough_shards(
                            k,
                            shards[i as int],
                            results@,
                        ) implies false by {
                        assert(is_chunk_encoding(
                            k,
                            c,
                            meta.compression_level,
                            chunk_of(data, i as int),
                            shards[i as int],
                        ));
                    }
                }
                return Err(e);
            },
        };
        let corrections = recovered.corrections;
        let mut data = recovered.data;
        let ghost whole = data@;
        if data.len() > size {
            data.truncate(size);
        }
        proof {
            if size <= whole.len() {
                assert(data@ =~= whole.take(size as int));
            }
            assert forall|d: Seq<u8>, shards: Seq<Seq<Seq<u8>>>| #[trigger]
                is_stored(k, c, *meta, d, shards) && enough_shards(
                    k,
                    shards[i as int],
                    results@,
                ) implies data@ == chunk_of(d, i as int) && correction_pairs(corrections@)
                == corrections_of(
                read_shards(results@),
                shards[i as int],
                results@.len() as int,
            ) by {
                let chunk = chunk_of(d, i as int);
                assert(is_chunk_encoding(
                    k,
                    c,
                    meta.compression_level,
                    chunk,
                    shards[i as int],
                ));
                assert(cut_to(whole, chunk.len()) == chunk);
                assert(shards[i as int].len() == results@.len());
            }
        }
        Ok(RecoveredChunk { data, corrections })
    }

    /// Read `count` chunks of an object from `first` on; `results` holds what was read of each of
    /// them.
    pub fn read_chunks(
        &self,
        meta: &VersionMeta,
        first: usize,
        count: usize,
        results: &[Vec<StorageResult<Vec<u8>>>],
    ) -> (r: StorageResult<ReadChunks>)
        requires
            self.wf(),
            first + count <= meta.chunk_checksums@.len(),
            results@.len() == count,
            forall|j: int|
                0 <= j < results@.len() ==> (#[trigger] results@[j])@.len() == self.num_disks,
        ensures
            r is Ok <==> decoded_range(
                self.coder.k(),
                self.coder.c(),
                *meta,
                first as int,
                count as int,
                results@,
            ) is Some,
            r matches Ok(read) ==> decoded_range(
                self.coder.k(),
                self.coder.c(),
                *meta,
                first as int,
                count as int,
                results@,
            ) == Some(read.data@) && read.corrections@.len() == count && forall|j: int|
                0 <= j < count ==> correction_pairs((#[trigger] read.corrections@[j])@)
                    == corrections_of(
                    read_shards(results@[j]@),
                    decoded_shards(self.coder.k(), self.coder.c(), read_shards(results@[j]@)),
                    self.num_disks as int,
                ),
            r matches Err(e) ==> exists|j: int|
                0 <= j < count && decoded_range(
                    self.coder.k(),
                    self.coder.c(),
                    *meta,
                    first as int,
                    j,
                    results@,
                ) is Some && #[trigger] is_chunk_error(
                    self.coder.k(),
                    self.coder.c(),
                    *meta,
                    first + j,
                    results@[j]@,
                    e,
                ),
            // Enough shards of every chunk give the data back.
            forall|data: Seq<u8>, shards: Seq<Seq<Seq<u8>>>| #[trigger]
                is_stored(self.coder.k(), self.coder.c(), *meta, data, shards) && all_enough(
                    self.coder.k(),
                    shards,
                    first as int,
                    results@,
                ) ==> r is Ok && r.unwrap().data@ == data.subrange(
                    chunk_start_in(data.len(), first as int),
                    chunk_start_in(data.len(), first + count),
                ),
    {
        let ghost k = self.coder.k();
        let ghost c = self.coder.c();
        let mut data: Vec<u8> = Vec::new();
        let mut corrections: Vec<Vec<(usize, Vec<u8>)>> = Vec::new();
        let mut j: usize = 0;
        proof {
            assert forall|d: Seq<u8>, shards: Seq<Seq<Seq<u8>>>| #[trigger]
                is_stored(k, c, *meta, d, shards) && all_enough(
                    k,
                    shards,
                    first as int,
                    results@,
                ) implies data@ == d.subrange(
                chunk_start_in(d.len(), first as int),
                chunk_start_in(d.len(), first as int),
            ) by {}
        }
        while j < count
            invariant
                j <= count,
                self.wf(),
                k == self.coder.k(),
                c == self.coder.c(),
                first + count <= meta.chunk_checksums.len(),
                results@.len() == count,
                forall|m: int|
                    0 <= m < results@.len() ==> (#[trigger] results@[m])@.len() == self.num_disks,
                decoded_range(k, c, *meta, first as int, j as int, results@) == Some(data@),
                corrections@.len() == j,
                forall|m: int|
                    0 <= m < j ==> correction_pairs((#[trigger] corrections@[m])@)
                        == corrections_of(
                        read_shards(results@[m]@),
                        decoded_shards(k, c, read_shards(results@[m]@)),
                        self.num_disks as int,
                    ),
                forall|d: Seq<u8>, shards: Seq<Seq<Seq<u8>>>| #[trigger]
                    is_stored(k, c, *meta, d, shards) && all_enough(
                        k,
                        shards,
                        first as int,
                        results@,
                    ) ==> data@ == d.subrange(
                        chunk_start_in(d.len(), first as int),
                        chunk_start_in(d.len(), first + j),
                    ),
            decreases count - j,
        {
            let ghost before = data@;
            match self.decode_chunk(meta, first + j, results[j].as_slice()) {
                Ok(chunk) => {
                    extend_range(&mut data, chunk.data.as_slice(), 0, chunk.data.len());
                    proof {
                        let piece = chunk.data@;
                        assert(piece.subrange(0, piece.len() as int) =~= piece);
                        assert forall|d: Seq<u8>, shards: Seq<Seq<Seq<u8>>>| #[trigger]
                            is_stored(k, c, *meta, d, shards) && all_enough(
                                k,
                                shards,
                                first as int,
                                results@,
                            ) implies data@ == d.subrange(
                            chunk_start_in(d.len(), first as int),
                            chunk_start_in(d.len(), first + j + 1),
                        ) by {
                            assert(enough_shards(k, shards[first + j], results@[j as int]@));
                            lemma_chunk_len(d, first + j);
                            lemma_chunk_start(d.len(), first as int, first + j);
                            assert(data@ =~= d.subrange(
                                chunk_start_in(d.len(), first as int),
                                chunk_start_in(d.len(), first + j + 1),
                            ));
                        }
                    }
                    corrections.push(chunk.corrections);
                },
                Err(e) => {
                    proof {
                        lemma_decoded_range_none(
                            k,
                            c,
                            *meta,
                            first as int,
                            j + 1,
                            count as int,
                            results@,
                        );
                        assert(is_chunk_error(k, c, *meta, first + j, results@[j as int]@, e));
                        assert forall|d: Seq<u8>, shards: Seq<Seq<Seq<u8>>>| #[trigger]
                            is_stored(k, c, *meta, d, shards) && all_enough(
                                k,
                                shards,
                                first as int,
                                results@,
                            ) implies false by {
                            assert(enough_shards(k, shards[first + j], results@[j as int]@));
                        }
                    }
                    return Err(e);
                },
            }
            j += 1;
        }
        Ok(ReadChunks { data, corrections })
    }
}

/// Whether enough shards of each of the chunks from `first` on were read.
pub open spec fn all_enough(
    k: nat,
    shards: Seq<Seq<Seq<u8>>>,
    first: int,
    results: Seq<Vec<StorageResult<Vec<u8>>>>,
) -> bool {
    forall|j: int|
        0 <= j < results.len() ==> enough_shards(
            k,
            shards[first + j],
            (#[trigger] results[j])@,
        )
}

/// Where chunk `i` starts in `len` bytes, at most at their end.
pub open spec fn chunk_start_in(len: nat, i: int) -> int {
    if i * CHUNK_SIZE_DEFAULT <= len {
        i * CHUNK_SIZE_DEFAULT
    } else {
        len as int
    }
}

pub proof fn lemma_chunk_len(data: Seq<u8>, i: int)
    requires
        0 <= i < chunk_count(data.len()),
    ensures
        0 <= i * CHUNK_SIZE_DEFAULT < chunk_end(data.len(), i) <= data.len(),
        chunk_of(data, i).len() > 0,
        chunk_len_of(data.len(), chunk_count(data.len()), i) == Some(chunk_of(data, i).len()),
        chunk_end(data.len(), i) == chunk_start_in(data.len(), i + 1),
        chunk_start_in(data.len(), i) == i * CHUNK_SIZE_DEFAULT,
{
    let n = chunk_count(data.len());
    assert((n - 1) * CHUNK_SIZE_DEFAULT < data.len() <= n * CHUNK_SIZE_DEFAULT);
    assert(i * CHUNK_SIZE_DEFAULT <= (n - 1) * CHUNK_SIZE_DEFAULT);
}

proof fn lemma_chunk_start(len: nat, a: int, b: int)
    requires
        0 <= a <= b,
    ensures
        0 <= chunk_start_in(len, a) <= chunk_start_in(len, b) <= len,
{
}

proof fn lemma_decoded_range_none(
    k: nat,
    c: nat,
    meta: VersionMeta,
    first: int,
    n: int,
    m: int,
    results: Seq<Vec<StorageResult<Vec<u8>>>>,
)
    requires
        0 <= n <= m,
        decoded_range(k, c, meta, first, n, results) is None,
    ensures
        decoded_range(k, c, meta, first, m, results) is None,
    decreases m,
{
    if n < m {
        lemma_decoded_range_none(k, c, meta, first, n, m - 1, results);
    }
}

/// No damaged data is returned: a chunk is read only from enough shards, it is no longer than the
/// object says, and it has the checksum on record.
pub proof fn law_read_chunk_has_its_checksum(
    k: nat,
    c: nat,
    meta: VersionMeta,
    i: int,
    results: Seq<StorageResult<Vec<u8>>>,
)
    requires
        decoded_chunk(k, c, meta, i, results) is Some,
    ensures
        survivors(read_shards(results)) >= k,
        chunk_len_of(meta.data_size as nat, meta.chunk_checksums@.len(), i) matches Some(size)
            && decoded_chunk(k, c, meta, i, results).unwrap().len() <= size && (size > 0 ==> xxh3(
            decoded_chunk(k, c, meta, i, results).unwrap(),
        ) == meta.chunk_checksums@[i]),
{
}

/// With fewer shards than there are data shards nothing is read.
pub proof fn law_too_few_shards_give_no_data(
    k: nat,
    c: nat,
    meta: VersionMeta,
    i: int,
    results: Seq<StorageResult<Vec<u8>>>,
)
    requires
        survivors(read_shards(results)) < k,
    ensures
        decoded_chunk(k, c, meta, i, results) is None,
{
}

/// What is read of several chunks is those chunks, one behind the other: each of them was read, and
/// each stands behind all those before it.
pub proof fn law_chunks_are_read_in_order(
    k: nat,
    c: nat,
    meta: VersionMeta,
    first: int,
    count: int,
    results: Seq<Vec<StorageResult<Vec<u8>>>>,
    j: int,
)
    requires
        0 <= j < count <= results.len(),
        decoded_range(k, c, meta, first, count, results) is Some,
    ensures
        decoded_chunk(k, c, meta, first + j, results[j]@) is Some,
        decoded_range(k, c, meta, first, j, results) is Some,
        ({
            let all = decoded_range(k, c, meta, first, count, results).unwrap();
            let at = decoded_range(k, c, meta, first, j, results).unwrap().len();
            let chunk = decoded_chunk(k, c, meta, first + j, results[j]@).unwrap();
            at + chunk.len() <= all.len() && all.subrange(at as int, (at + chunk.len()) as int)
                == chunk
        }),
        j == 0 ==> decoded_range(k, c, meta, first, j, results).unwrap().len() == 0,
        j == count - 1 ==> decoded_range(k, c, meta, first, count, results).unwrap().len()
            == decoded_range(k, c, meta, first, j, results).unwrap().len() + decoded_chunk(
            k,
            c,
            meta,
            first + j,
            results[j]@,
        ).unwrap().len(),
    decreases count,
{
    let all = decoded_range(k, c, meta, first, count, results).unwrap();
    let head = decoded_range(k, c, meta, first, count - 1, results).unwrap();
    let tail = decoded_chunk(k, c, meta, first + count - 1, results[count - 1]@).unwrap();
    assert(all == head + tail);
    if j == count - 1 {
        assert(all.subrange(head.len() as int, all.len() as int) =~= tail);
    } else {
        law_chunks_are_read_in_order(k, c, meta, first, count - 1, results, j);
        let at = decoded_range(k, c, meta, first, j, results).unwrap().len() as int;
        let chunk = decoded_chunk(k, c, meta, first + j, results[j]@).unwrap();
        assert(all.subrange(at, at + chunk.len()) =~= head.subrange(at, at + chunk.len()));
    }
}

/// An object is split into chunks of 64 MiB, the last of which may be smaller: each chunk starts
/// where the one before it ends, none is empty, and the last one ends with the object.
pub proof fn law_object_is_split_into_chunks(data: Seq<u8>, i: int)
    requires
        0 <= i < chunk_count(data.len()),
    ensures
        i < chunk_count(data.len()) - 1 ==> chunk_of(data, i).len() == 64 * 1024 * 1024,
        0 < chunk_of(data, i).len() <= 64 * 1024 * 1024,
        chunk_of(data, i) == data.subrange(
            i * (64 * 1024 * 1024),
            i * (64 * 1024 * 1024) + chunk_of(data, i).len(),
        ),
        i == chunk_count(data.len()) - 1 ==> i * (64 * 1024 * 1024) + chunk_of(data, i).len()
            == data.len(),
        chunk_of(data, i).len() == chunk_len_of(
            data.len(),
            chunk_count(data.len()),
            i,
        ).unwrap(),
{
    lemma_chunk_len(data, i);
}

} // verus!
