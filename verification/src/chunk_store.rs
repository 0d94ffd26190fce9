//! The chunk store: all disks and the operations on chunks.
use crate::checksum::per_chunk_checksum;
use crate::cluster::ClusterId;
use crate::compression::{decode_first_frame, zstd_encode};
use crate::config::Config;
use crate::disk::{read_entry, Disk, WriteHandle};
use crate::erasure::{reconstruct, ErasureCoder};
use crate::errors::{StorageError, StorageResult};
use crate::shards::{shard_size, split_payload};
use crate::text::{join2, join3};
use vstd::prelude::*;

verus! {

use crate::checksum::xxh3;
use crate::cluster::uuid_parsed;
use crate::compression::{first_frame_decoded, is_frame_of, zstd_encoded};
use crate::disk::{entry_at, entry_defect, intact_shard_at, shard_entry};
use crate::erasure::{
    byte_strings, decodable, decoded_data, decoded_shards, encodable, encoded, first_size,
    is_encoding, optional_byte_strings, parts_of, survivors,
};
use crate::shards::{
    data_shards_of, flat, lemma_data_shards_hold_payload, lemma_flat_len, lemma_shard_size,
    shard_size_of,
};

/// What is erasure-coded for a chunk: the chunk itself, or the zstd frame of the chunk if there is a
/// compression level, unless compressing it fails.
pub open spec fn payload_of(level: Option<i32>, chunk: Seq<u8>) -> Option<Seq<u8>> {
    match level {
        None => Some(chunk),
        Some(l) => zstd_encoded(chunk, l),
    }
}

/// Whether `payload` is what is erasure-coded for a chunk.
pub open spec fn is_payload(level: Option<i32>, chunk: Seq<u8>, payload: Seq<u8>) -> bool {
    payload_of(level, chunk) == Some(payload) && (level is Some ==> is_frame_of(payload, chunk))
}

/// Whether `shards` is all shards of the payload `payload`.
pub open spec fn are_shards_of_payload(
    k: nat,
    c: nat,
    payload: Seq<u8>,
    shards: Seq<Seq<u8>>,
) -> bool {
    &&& is_encoding(k, c, data_shards_of(payload, k), shard_size_of(payload.len(), k))
    &&& shards == encoded(k, c, data_shards_of(payload, k))
}

/// Whether `shards` is all shards of a chunk that was encoded at the compression level `level`.
pub open spec fn is_chunk_encoding(
    k: nat,
    c: nat,
    level: Option<i32>,
    chunk: Seq<u8>,
    shards: Seq<Seq<u8>>,
) -> bool {
    exists|payload: Seq<u8>|
        is_payload(level, chunk, payload) && #[trigger] are_shards_of_payload(
            k,
            c,
            payload,
            shards,
        )
}

/// The shards in a sequence of read results.
pub open spec fn read_shards(results: Seq<StorageResult<Vec<u8>>>) -> Seq<Option<Seq<u8>>> {
    Seq::new(
        results.len(),
        |i: int|
            match results[i] {
                Ok(v) => Some(v@),
                Err(_) => None,
            },
    )
}

/// The content of a chunk, from the shards that are there: the data shards put together, and
/// decompressed if the chunk is compressed.
pub open spec fn chunk_content(
    k: nat,
    c: nat,
    compressed: bool,
    shards: Seq<Option<Seq<u8>>>,
) -> Option<Seq<u8>> {
    let bytes = flat(decoded_data(k, c, shards));
    if compressed {
        first_frame_decoded(bytes)
    } else {
        Some(bytes)
    }
}

/// The first `size` bytes of `content`, or all of it if `size` is zero or it is no longer.
pub open spec fn cut_to(content: Seq<u8>, size: nat) -> Seq<u8> {
    if 0 < size <= content.len() {
        content.take(size as int)
    } else {
        content
    }
}

/// The shards that have to be written back: those of the first `n` that are not there.
pub open spec fn corrections_of(
    shards: Seq<Option<Seq<u8>>>,
    all: Seq<Seq<u8>>,
    n: int,
) -> Seq<(usize, Seq<u8>)>
    decreases n,
{
    if n <= 0 {
        Seq::empty()
    } else if shards[n - 1] is None {
        corrections_of(shards, all, n - 1).push(((n - 1) as usize, all[n - 1]))
    } else {
        corrections_of(shards, all, n - 1)
    }
}

/// Whether a list of corrections writes `shard` to the disk `i`.
pub open spec fn corrects(corrections: Seq<(usize, Vec<u8>)>, i: int, shard: Seq<u8>) -> bool {
    exists|j: int|
        0 <= j < corrections.len() && (#[trigger] corrections[j]).0 == i && corrections[j].1@
            == shard
}

/// Whether a list of corrections writes anything to the disk `i`.
pub open spec fn touches(corrections: Seq<(usize, Vec<u8>)>, i: int) -> bool {
    exists|j: int| 0 <= j < corrections.len() && (#[trigger] corrections[j]).0 == i
}

/// What the disks hold of a chunk after corrections were written to them.
pub open spec fn written_back(
    shards: Seq<Option<Seq<u8>>>,
    corrections: Seq<(usize, Seq<u8>)>,
) -> Seq<Option<Seq<u8>>>
    decreases corrections.len(),
{
    if corrections.len() == 0 {
        shards
    } else {
        let (disk, shard) = corrections.last();
        written_back(shards, corrections.drop_last()).update(disk as int, Some(shard))
    }
}

/// The pairs that a list of corrections holds.
pub open spec fn correction_pairs(v: Seq<(usize, Vec<u8>)>) -> Seq<(usize, Seq<u8>)> {
    Seq::new(v.len(), |i: int| (v[i].0, v[i].1@))
}

/// A chunk with the corrections that its reading gave.
pub struct RecoveredChunk {
    /// The content of the chunk, with any padding behind it.
    pub data: Vec<u8>,
    /// Shard index and data of each shard that could not be read.
    pub corrections: Vec<(usize, Vec<u8>)>,
}

/// A chunk that is ready to be stored.
pub struct EncodedChunk {
    /// Checksum of the chunk's data.
    pub checksum: u128,
    /// Size of each shard.
    pub shard_size: u64,
    /// The shards, one per disk.
    pub shards: Vec<Vec<u8>>,
}

/// The chunk store manages all disks and chunk-level operations.
pub struct ChunkStore {
    pub disks: Vec<Disk>,
    pub coder: ErasureCoder,
    pub num_disks: usize,
    /// Number of data shards (fixed per cluster).
    pub k: usize,
    /// Zstd compression level, if chunks are compressed.
    pub compression_level: Option<i32>,
}

impl ChunkStore {
    /// The counts fit together: one disk per shard.
    pub open spec fn wf(self) -> bool {
        &&& self.coder.wf()
        &&& self.k == self.coder.k()
        &&& self.k > 0
        &&& self.num_disks == self.coder.k() + self.coder.c()
        &&& self.disks@.len() == self.num_disks
    }

    /// Whether the shards of a payload of `len` bytes have sizes that this machine can count.
    pub open spec fn can_hold(self, len: nat) -> bool {
        len + self.k <= usize::MAX && shard_size_of(len, self.k as nat) * self.num_disks
            <= usize::MAX
    }

    /// Whether a chunk can be encoded: its payload exists and has a size that can be counted, and
    /// the Reed-Solomon code takes its data shards.
    pub open spec fn encodes(self, chunk: Seq<u8>) -> bool {
        payload_of(self.compression_level, chunk) matches Some(payload) && self.can_hold(
            payload.len(),
        ) && encodable(self.coder.k(), self.coder.c(), data_shards_of(payload, self.k as nat))
    }

    /// Whether `e` says why `chunk` could not be encoded. The rest of the text of a failed
    /// compression is up to the compressor.
    pub open spec fn is_encode_error(self, chunk: Seq<u8>, e: StorageError) -> bool {
        match payload_of(self.compression_level, chunk) {
            None => e matches StorageError::Transient(m) && "zstd encode: "@.is_prefix_of(m@),
            Some(payload) => if self.can_hold(payload.len()) {
                e is ReedSolomonError
            } else {
                e matches StorageError::Transient(m) && m@ == "chunk is too large to encode"@
            },
        }
    }

    /// The cluster ids that a configuration expects, one slot per disk.
    pub fn expected_ids(config: &Config) -> (r: StorageResult<Vec<Option<ClusterId>>>)
        requires
            config.n() <= usize::MAX,
        ensures
            r is Ok <==> config.defect() is None && forall|i: int|
                0 <= i < config.disk_uuids@.len() ==> uuid_parsed(
                    (#[trigger] config.disk_uuids@[i])@,
                ) is Some,
            r matches Ok(ids) ==> ids@.len() == config.disk_paths@.len() && forall|i: int|
                0 <= i < ids@.len() ==> #[trigger] ids@[i] == (if config.disk_uuids@.len() == 0 {
                    None
                } else {
                    Some(ClusterId(uuid_parsed(config.disk_uuids@[i]@).unwrap()))
                }),
            r matches Err(e) ==> e matches StorageError::Transient(m) && match config.defect() {
                Some(text) => m@ == text,
                None => exists|i: int| #![trigger config.disk_uuids@[i]]
                    0 <= i < config.disk_uuids@.len() && uuid_parsed(config.disk_uuids@[i]@) is None
                        && (forall|j: int|
                        0 <= j < i ==> uuid_parsed((#[trigger] config.disk_uuids@[j])@) is Some)
                        && ("invalid disk UUID in config for slot "@ + config.disk_uuids@[i]@
                        + ": "@).is_prefix_of(m@),
            },
    {
        match config.validate() {
            Ok(()) => {},
            Err(m) => {
                return Err(StorageError::Transient(m));
            },
        }
        let mut ids: Vec<Option<ClusterId>> = Vec::new();
        let mut i: usize = 0;
        while i < config.disk_uuids.len()
            invariant
                i <= config.disk_uuids@.len(),
                config.defect() is None,
                ids@.len() == i,
                forall|j: int|
                    0 <= j < i ==> uuid_parsed((#[trigger] config.disk_uuids@[j])@) is Some,
                forall|j: int|
                    0 <= j < i ==> #[trigger] ids@[j] == Some(
                        ClusterId(uuid_parsed(config.disk_uuids@[j]@).unwrap()),
                    ),
            decreases config.disk_uuids.len() - i,
        {
            match ClusterId::parse(config.disk_uuids[i].as_str()) {
                Ok(id) => {
                    ids.push(Some(id));
                },
                Err(e) => {
                    let mut m = join3(
                        "invalid disk UUID in config for slot ",
                        config.disk_uuids[i].as_str(),
                        ": ",
                    );
                    let ghost head = m@;
                    m.append(e.as_str());
                    assert(m@.subrange(0, head.len() as int) =~= head);
                    assert(uuid_parsed(config.disk_uuids@[i as int]@) is None);
                    return Err(StorageError::Transient(m));
                },
            }
            i += 1;
        }
        while ids.len() < config.disk_paths.len()
            invariant
                config.defect() is None,
                ids@.len() <= config.disk_paths@.len(),
                config.disk_uuids@.len() == 0 || ids@.len() == config.disk_uuids@.len(),
                config.disk_uuids@.len() == 0 ==> forall|j: int|
                    0 <= j < ids@.len() ==> (#[trigger] ids@[j]) is None,
                config.disk_uuids@.len() > 0 ==> forall|j: int|
                    0 <= j < ids@.len() ==> #[trigger] ids@[j] == Some(
                        ClusterId(uuid_parsed(config.disk_uuids@[j]@).unwrap()),
                    ),
                forall|j: int|
                    0 <= j < config.disk_uuids@.len() ==> uuid_parsed(
                        (#[trigger] config.disk_uuids@[j])@,
                    ) is Some,
            decreases config.disk_paths.len() - ids.len(),
        {
            ids.push(None);
        }
        Ok(ids)
    }

    /// Create the chunk store of a configuration, with the cluster ids of its disks.
    pub fn new(config: &Config, ids: &[ClusterId]) -> (r: StorageResult<Self>)
        requires
            config.n() <= usize::MAX,
            ids@.len() == config.disk_paths@.len(),
        ensures
            r is Ok <==> config.defect() is None,
            r matches Ok(store) ==> store.wf() && store.k == config.k() && store.num_disks
                == config.n() && store.coder.c() == config.disk_failures && store.compression_level
                == config.compression_level && forall|i: int|
                0 <= i < store.disks@.len() ==> (#[trigger] store.disks@[i]).path@
                    == config.disk_paths@[i]@ && store.disks@[i].cluster_id == ids@[i]
                    && !store.disks@[i].failed(),
            r matches Err(e) ==> e matches StorageError::Transient(m) && m@
                == config.defect().unwrap(),
    {
        match config.validate() {
            Ok(()) => {},
            Err(m) => {
                return Err(StorageError::Transient(m));
            },
        }
        let num_disks: usize = config.disk_paths.len();
        let coder = ErasureCoder::new(config);
        let k: usize = coder.data_shards();
        let mut disks: Vec<Disk> = Vec::new();
        let mut i: usize = 0;
        while i < num_disks
            invariant
                i <= num_disks,
                num_disks == config.disk_paths@.len(),
                ids@.len() == config.disk_paths@.len(),
                disks@.len() == i,
                forall|j: int|
                    0 <= j < i ==> (#[trigger] disks@[j]).path@ == config.disk_paths@[j]@
                        && disks@[j].cluster_id == ids@[j] && !disks@[j].failed(),
            decreases num_disks - i,
        {
            disks.push(Disk::new(config.disk_paths[i].clone(), ids[i]));
            i += 1;
        }
        Ok(ChunkStore { disks, coder, num_disks, k, compression_level: config.compression_level })
    }

    /// Encode a chunk's data into one shard per disk. If compression is enabled, the data is
    /// compressed before erasure coding.
    pub fn encode_chunk(&self, chunk_data: &[u8]) -> (r: StorageResult<EncodedChunk>)
        requires
            self.wf(),
            chunk_data@.len() > 0,
        ensures
            r matches Ok(chunk) ==> chunk.checksum == xxh3(chunk_data@),
            r matches Ok(chunk) ==> is_chunk_encoding(
                self.coder.k(),
                self.coder.c(),
                self.compression_level,
                chunk_data@,
                byte_strings(chunk.shards@),
            ),
            r matches Ok(chunk) ==> chunk.shards@.len() == self.num_disks && forall|i: int|
                0 <= i < chunk.shards@.len() ==> (#[trigger] chunk.shards@[i])@.len()
                    == chunk.shard_size,
            r is Ok <==> self.encodes(chunk_data@),
            r matches Err(e) ==> self.is_encode_error(chunk_data@, e),
    {
        let checksum: u128 = per_chunk_checksum(chunk_data);
        let payload: Vec<u8> = match self.compression_level {
            Some(level) => match zstd_encode(chunk_data, level) {
                Ok(frame) => frame,
                Err(e) => {
                    let m = join2("zstd encode: ", e.as_str());
                    assert(m@.subrange(0, "zstd encode: "@.len() as int) =~= "zstd encode: "@);
                    return Err(StorageError::Transient(m));
                },
            },
            None => {
                let mut copy: Vec<u8> = Vec::new();
                copy.extend_from_slice(chunk_data);
                assert(copy@ =~= chunk_data@);
                copy
            },
        };
        assert(is_payload(self.compression_level, chunk_data@, payload@));
        let ghost kn = self.k as nat;
        let ghost sn = shard_size_of(payload@.len(), kn);
        proof {
            lemma_shard_size(payload@.len(), kn);
            lemma_data_shards_hold_payload(payload@, kn);
        }
        let size: usize = match checked_shard_size(payload.len(), self.k, self.num_disks) {
            Some(size) => size,
            None => {
                return Err(StorageError::Transient("chunk is too large to encode".to_owned()));
            },
        };
        proof {
            assert(sn * kn <= sn * self.num_disks && sn <= sn * self.num_disks)
                by (nonlinear_arith)
                requires
                    1 <= kn <= self.num_disks,
                    sn >= 0,
            ;
        }
        let data_shards = split_payload(payload.as_slice(), self.k, size);
        proof {
            assert forall|i: int| 0 <= i < data_shards@.len() implies (
            #[trigger] data_shards@[i])@.len() > 0 by {
                assert(byte_strings(data_shards@)[i].len() == sn);
            }
            assert(byte_strings(data_shards@)[0].len() == sn);
        }
        let shards = match self.coder.encode(data_shards.as_slice()) {
            Ok(shards) => shards,
            Err(e) => {
                proof {
                    assert(crate::erasure::all_of_size(byte_strings(data_shards@), sn));
                }
                return Err(e);
            },
        };
        proof {
            assert(are_shards_of_payload(
                self.coder.k(),
                self.coder.c(),
                payload@,
                byte_strings(shards@),
            ));
            assert forall|i: int| 0 <= i < shards@.len() implies (#[trigger] shards@[i])@.len()
                == sn by {
                assert(byte_strings(shards@)[i].len() == sn);
            }
        }
        Ok(EncodedChunk { checksum, shard_size: size as u64, shards })
    }

    /// Encode a chunk and append its shards to the mega-files that are open, one per disk.
    /// Returns the chunk's checksum and the size of its shards in bytes.
    pub fn encode_and_append(
        &self,
        chunk_data: &[u8],
        handles: &mut Vec<Option<WriteHandle>>,
    ) -> (r: StorageResult<(u128, u64)>)
        requires
            self.wf(),
            chunk_data@.len() > 0,
            old(handles)@.len() == self.num_disks,
        ensures
            final(handles)@.len() == old(handles)@.len(),
            r matches Ok((checksum, shard_size)) ==> checksum == xxh3(chunk_data@) && exists|
                shards: Seq<Seq<u8>>,
            | #[trigger]
                is_chunk_encoding(
                    self.coder.k(),
                    self.coder.c(),
                    self.compression_level,
                    chunk_data@,
                    shards,
                ) && shard_size == shards[0].len() && appended(
                    old(handles)@,
                    final(handles)@,
                    shards,
                ),
            r is Err ==> final(handles)@ == old(handles)@,
            r is Ok <==> self.encodes(chunk_data@),
            r matches Err(e) ==> self.is_encode_error(chunk_data@, e),
    {
        let chunk = match self.encode_chunk(chunk_data) {
            Ok(chunk) => chunk,
            Err(e) => {
                return Err(e);
            },
        };
        let ghost shards = byte_strings(chunk.shards@);
        let ghost before = handles@;
        let mut i: usize = 0;
        while i < self.num_disks
            invariant
                i <= self.num_disks,
                self.wf(),
                before.len() == self.num_disks,
                handles@.len() == before.len(),
                chunk.shards@.len() == self.num_disks,
                shards == byte_strings(chunk.shards@),
                forall|j: int|
                    0 <= j < i ==> #[trigger] appended_one(before[j], handles@[j], shards[j]),
                forall|j: int| i <= j < handles@.len() ==> #[trigger] handles@[j] == before[j],
            decreases self.num_disks - i,
        {
            let shard: &Vec<u8> = &chunk.shards[i];
            let cksum: u128 = per_chunk_checksum(shard.as_slice());
            let mut slot: Option<WriteHandle> = None;
            std::mem::swap(&mut slot, &mut handles[i]);
            let updated: Option<WriteHandle> = match slot {
                Some(h) => {
                    let mut handle = h;
                    self.disks[i].append_chunk(&mut handle, shard.as_slice(), cksum);
                    Some(handle)
                },
                None => None,
            };
            assert(appended_one(before[i as int], updated, shards[i as int]));
            handles.set(i, updated);
            i += 1;
        }
        proof {
            assert(shards[0].len() == chunk.shards@[0]@.len());
            assert(appended(before, handles@, shards));
        }
        Ok((chunk.checksum, chunk.shard_size))
    }

    /// Turn what was read from each disk at a chunk's entry into shards: the shard where the entry
    /// is intact, and an error where the disk is marked as failed, could not be read, or holds a
    /// damaged entry.
    pub fn read_chunk(&self, entries: &[StorageResult<Vec<u8>>]) -> (r: Vec<StorageResult<Vec<u8>>>)
        requires
            self.wf(),
            entries@.len() == self.num_disks,
        ensures
            r@.len() == self.num_disks,
            forall|i: int|
                0 <= i < r@.len() ==> #[trigger] is_read_of(self.disks@[i], entries@[i], r@[i]),
    {
        let mut results: Vec<StorageResult<Vec<u8>>> = Vec::new();
        let mut i: usize = 0;
        while i < self.disks.len()
            invariant
                i <= self.disks@.len(),
                entries@.len() == self.disks@.len(),
                results@.len() == i,
                forall|j: int|
                    0 <= j < i ==> #[trigger] is_read_of(
                        self.disks@[j],
                        entries@[j],
                        results@[j],
                    ),
            decreases self.disks.len() - i,
        {
            let result: StorageResult<Vec<u8>> = if self.disks[i].is_marked_failed() {
                Err(self.disks[i].failed_error())
            } else {
                match &entries[i] {
                    Ok(bytes) => match read_entry(bytes.as_slice(), 0) {
                        Ok(result) => result,
                        Err(e) => Err(e),
                    },
                    Err(e) => Err(e.clone()),
                }
            };
            assert(is_read_of(self.disks@[i as int], entries@[i as int], result));
            results.push(result);
            i += 1;
        }
        results
    }

    /// Recover a chunk from the shards that could be read. `expected_chunk_size` is the number of
    /// bytes of the chunk: what the shards hold is cut to it before its checksum is verified.
    pub fn recover_chunk(
        &self,
        expected_chunk_checksum: u128,
        expected_chunk_size: usize,
        compressed: bool,
        shard_results: &[StorageResult<Vec<u8>>],
    ) -> (r: StorageResult<RecoveredChunk>)
        requires
            self.wf(),
            shard_results@.len() == self.num_disks,
        ensures
            ({
                let k = self.coder.k();
                let c = self.coder.c();
                let s = read_shards(shard_results@);
                let content = chunk_content(k, c, compressed, s);
                &&& r is Ok <==> decodable(k, c, s) && content is Some && xxh3(
                    cut_to(content.unwrap(), expected_chunk_size as nat),
                ) == expected_chunk_checksum
                &&& r matches Ok(chunk) ==> chunk.data@ == content.unwrap() && correction_pairs(
                    chunk.corrections@,
                ) == corrections_of(s, decoded_shards(k, c, s), s.len() as int)
                // Without compression the data is as long as the data shards together.
                &&& r matches Ok(chunk) ==> (!compressed ==> chunk.data@.len() == k * first_size(
                    s,
                ).unwrap())
                // Every shard that could not be read is written back, and no other.
                &&& r matches Ok(chunk) ==> forall|i: int|
                    0 <= i < shard_results@.len() ==> if (#[trigger] shard_results@[i]) is Err {
                        corrects(chunk.corrections@, i, decoded_shards(k, c, s)[i])
                    } else {
                        !touches(chunk.corrections@, i)
                    }
                &&& r matches Err(e) ==> if survivors(s) < k {
                    e is TooManyFailures
                } else if !decodable(k, c, s) {
                    e is ReedSolomonError
                } else if content is None {
                    e matches StorageError::Transient(m) && "zstd decode shard: "@.is_prefix_of(m@)
                } else {
                    e == (StorageError::ChecksumMismatch {
                        expected: expected_chunk_checksum,
                        actual: xxh3(cut_to(content.unwrap(), expected_chunk_size as nat)),
                    })
                }
            }),
            // As many shards as there are data shards give the chunk and all its shards back.
            forall|level: Option<i32>, chunk: Seq<u8>, shards: Seq<Seq<u8>>| #[trigger]
                is_chunk_encoding(self.coder.k(), self.coder.c(), level, chunk, shards)
                    && compressed == (level is Some) && parts_of(
                    shards,
                    read_shards(shard_results@),
                ) && survivors(read_shards(shard_results@)) >= self.coder.k() && chunk.len() > 0
                    && expected_chunk_size == chunk.len() && expected_chunk_checksum == xxh3(chunk)
                    ==> r is Ok && cut_to(r.unwrap().data@, chunk.len()) == chunk
                    && correction_pairs(r.unwrap().corrections@) == corrections_of(
                    read_shards(shard_results@),
                    shards,
                    shards.len() as int,
                ),
    {
        let ghost k = self.coder.k();
        let ghost c = self.coder.c();
        let ghost s = read_shards(shard_results@);
        let mut shards: Vec<Option<Vec<u8>>> = Vec::new();
        let mut i: usize = 0;
        while i < shard_results.len()
            invariant
                i <= shard_results@.len(),
                s == read_shards(shard_results@),
                shards@.len() == i,
                forall|j: int| 0 <= j < i ==> #[trigger] optional_byte_strings(shards@)[j] == s[j],
            decreases shard_results.len() - i,
        {
            let shard: Option<Vec<u8>> = match &shard_results[i] {
                Ok(data) => {
                    let copy: Vec<u8> = data.clone();
                    assert(copy@ =~= data@);
                    Some(copy)
                },
                Err(_) => None,
            };
            let ghost before = shards@;
            shards.push(shard);
            assert forall|j: int| 0 <= j <= i implies #[trigger] optional_byte_strings(shards@)[j]
                == s[j] by {
                if j < i {
                    assert(optional_byte_strings(before)[j] == optional_byte_strings(shards@)[j]);
                }
            }
            i += 1;
        }
        assert(optional_byte_strings(shards@) =~= s);
        let all = match reconstruct(
            self.coder.data_shards(),
            self.coder.parity_shards(),
            shards.as_slice(),
        ) {
            Ok(all) => all,
            Err(e) => {
                proof {
                    assert forall|level: Option<i32>, chunk: Seq<u8>, e: Seq<Seq<u8>>| #[trigger]
                        is_chunk_encoding(k, c, level, chunk, e) && parts_of(e, s) && survivors(s)
                            >= k implies false by {
                        let payload = choose|payload: Seq<u8>|
                            is_payload(level, chunk, payload) && #[trigger] are_shards_of_payload(
                                k,
                                c,
                                payload,
                                e,
                            );
                        assert(is_encoding(
                            k,
                            c,
                            data_shards_of(payload, k),
                            shard_size_of(payload.len(), k),
                        ));
                    }
                }
                return Err(e);
            },
        };
        let ghost alls = byte_strings(all@);
        let mut bytes: Vec<u8> = Vec::new();
        let mut i: usize = 0;
        assert(alls.take(0) =~= Seq::empty());
        while i < self.k
            invariant
                i <= self.k,
                self.k <= all@.len(),
                alls == byte_strings(all@),
                bytes@ == flat(alls.take(i as int)),
            decreases self.k - i,
        {
            bytes.extend_from_slice(all[i].as_slice());
            proof {
                assert(alls.take(i + 1).drop_last() =~= alls.take(i as int));
                assert(bytes@ =~= flat(alls.take(i + 1)));
            }
            i += 1;
        }
        proof {
            assert(alls.take(self.k as int) =~= decoded_data(k, c, s));
            let size = first_size(s).unwrap();
            assert forall|i: int| 0 <= i < k implies (#[trigger] alls.take(k as int)[i]).len()
                == size by {
                assert(alls[i].len() == size);
            }
            lemma_flat_len(alls.take(k as int), size);
        }
        let ghost joined = bytes@;
        let data: Vec<u8> = if compressed {
            match decode_first_frame(bytes.as_slice()) {
                Ok(data) => data,
                Err(e) => {
                    proof {
                        assert forall|level: Option<i32>, chunk: Seq<u8>, e: Seq<Seq<u8>>|
                            #[trigger]
                            is_chunk_encoding(k, c, level, chunk, e) && compressed == (
                            level is Some) && parts_of(e, s) && survivors(s) >= k implies false by {
                            lemma_recovered_content(k, c, level, chunk, e, alls, joined);
                        }
                    }
                    let m = join2("zstd decode shard: ", e.as_str());
                    assert(m@.subrange(0, "zstd decode shard: "@.len() as int)
                        =~= "zstd decode shard: "@);
                    return Err(StorageError::Transient(m));
                },
            }
        } else {
            bytes
        };
        proof {
            assert forall|level: Option<i32>, chunk: Seq<u8>, e: Seq<Seq<u8>>| #[trigger]
                is_chunk_encoding(k, c, level, chunk, e) && compressed == (level is Some)
                    && parts_of(e, s) && survivors(s) >= k && chunk.len() > 0 implies cut_to(
                data@,
                chunk.len(),
            ) == chunk && alls == e by {
                lemma_recovered_content(k, c, level, chunk, e, alls, joined);
                assert(data@.take(chunk.len() as int) =~= chunk);
            }
        }
        let cut: usize = if expected_chunk_size > 0 && expected_chunk_size <= data.len() {
            expected_chunk_size
        } else {
            data.len()
        };
        let actual: u128 = per_chunk_checksum(&data.as_slice()[0..cut]);
        assert(data@.subrange(0, cut as int) =~= cut_to(data@, expected_chunk_size as nat));
        if actual != expected_chunk_checksum {
            return Err(
                StorageError::ChecksumMismatch { expected: expected_chunk_checksum, actual },
            );
        }
        let mut corrections: Vec<(usize, Vec<u8>)> = Vec::new();
        let mut i: usize = 0;
        while i < shard_results.len()
            invariant
                i <= shard_results@.len(),
                shard_results@.len() == all@.len(),
                s == read_shards(shard_results@),
                alls == byte_strings(all@),
                correction_pairs(corrections@) == corrections_of(s, alls, i as int),
            decreases shard_results.len() - i,
        {
            if shard_results[i].is_err() {
                let copy: Vec<u8> = all[i].clone();
                assert(copy@ =~= alls[i as int]);
                let ghost before = corrections@;
                corrections.push((i, copy));
                assert(correction_pairs(corrections@) =~= correction_pairs(before).push(
                    (i, alls[i as int]),
                ));
            }
            i += 1;
        }
        proof {
            lemma_corrections(shard_results@, alls, corrections@);
        }
        Ok(RecoveredChunk { data, corrections })
    }
}

proof fn lemma_corrections_below(shards: Seq<Option<Seq<u8>>>, all: Seq<Seq<u8>>, n: int)
    requires
        0 <= n <= shards.len() == all.len() <= usize::MAX,
    ensures
        forall|i: int|
            0 <= i < n && (#[trigger] shards[i]) is None ==> corrections_of(
                shards,
                all,
                n,
            ).contains((i as usize, all[i])),
        forall|j: int|
            0 <= j < corrections_of(shards, all, n).len() ==> {
                let (disk, shard) = #[trigger] corrections_of(shards, all, n)[j];
                disk < n && shards[disk as int] is None && shard == all[disk as int]
            },
        forall|a: int, b: int|
            0 <= a < b < corrections_of(shards, all, n).len() ==> (#[trigger] corrections_of(
                shards,
                all,
                n,
            )[a]).0 < (#[trigger] corrections_of(shards, all, n)[b]).0,
    decreases n,
{
    if n > 0 {
        lemma_corrections_below(shards, all, n - 1);
        let before = corrections_of(shards, all, n - 1);
        let after = corrections_of(shards, all, n);
        assert forall|i: int| 0 <= i < n && (#[trigger] shards[i]) is None implies after.contains(
            (i as usize, all[i]),
        ) by {
            if i == n - 1 {
                assert(after.last() == (i as usize, all[i]));
            } else {
                let j = choose|j: int| 0 <= j < before.len() && before[j] == (i as usize, all[i]);
                assert(after[j] == before[j]);
            }
        }
    }
}

pub proof fn lemma_corrections(
    results: Seq<StorageResult<Vec<u8>>>,
    all: Seq<Seq<u8>>,
    corrections: Seq<(usize, Vec<u8>)>,
)
    requires
        results.len() == all.len() <= usize::MAX,
        correction_pairs(corrections) == corrections_of(
            read_shards(results),
            all,
            results.len() as int,
        ),
    ensures
        forall|i: int|
            0 <= i < results.len() ==> if (#[trigger] results[i]) is Err {
                corrects(corrections, i, all[i])
            } else {
                !touches(corrections, i)
            },
{
    let s = read_shards(results);
    let pairs = correction_pairs(corrections);
    lemma_corrections_below(s, all, results.len() as int);
    assert forall|i: int| 0 <= i < results.len() implies if (#[trigger] results[i]) is Err {
        corrects(corrections, i, all[i])
    } else {
        !touches(corrections, i)
    } by {
        if results[i] is Err {
            assert(s[i] is None);
            let j = choose|j: int| 0 <= j < pairs.len() && pairs[j] == (i as usize, all[i]);
            assert(corrections[j].0 == i && corrections[j].1@ == all[i]);
        } else if touches(corrections, i) {
            let j = choose|j: int| 0 <= j < corrections.len() && corrections[j].0 == i;
            assert(pairs[j].0 == i);
            assert(s[i] is Some);
        }
    }
}

/// Reading a chunk writes back exactly the shards that could not be read: for every disk whose
/// shard is an error there is a correction with that shard, for no other disk is there one, and no
/// disk is corrected twice.
pub proof fn law_every_lost_shard_is_corrected(
    results: Seq<StorageResult<Vec<u8>>>,
    all: Seq<Seq<u8>>,
)
    requires
        results.len() == all.len() <= usize::MAX,
    ensures
        ({
            let corrections = corrections_of(read_shards(results), all, results.len() as int);
            &&& forall|i: int|
                0 <= i < results.len() ==> ((#[trigger] results[i]) is Err <==> exists|j: int|
                    0 <= j < corrections.len() && (#[trigger] corrections[j]) == (
                        i as usize,
                        all[i],
                    ))
            &&& forall|j: int|
                0 <= j < corrections.len() ==> (#[trigger] corrections[j]).0 < results.len()
                    && results[corrections[j].0 as int] is Err
            &&& forall|a: int, b: int|
                0 <= a < b < corrections.len() ==> (#[trigger] corrections[a]).0 != (
                #[trigger] corrections[b]).0
        }),
{
    let s = read_shards(results);
    lemma_corrections_below(s, all, results.len() as int);
    let corrections = corrections_of(s, all, results.len() as int);
    assert forall|j: int| 0 <= j < corrections.len() implies (#[trigger] corrections[j]).0
        < results.len() && results[corrections[j].0 as int] is Err by {
        assert(s[corrections[j].0 as int] is None);
    }
    assert forall|i: int| 0 <= i < results.len() implies ((#[trigger] results[i]) is Err
        <==> exists|j: int|
        0 <= j < corrections.len() && (#[trigger] corrections[j]) == (i as usize, all[i])) by {
        if results[i] is Err {
            assert(s[i] is None);
            assert(corrections.contains((i as usize, all[i])));
        }
    }
}

proof fn lemma_written_back(shards: Seq<Option<Seq<u8>>>, all: Seq<Seq<u8>>, n: int)
    requires
        0 <= n <= shards.len() == all.len() <= usize::MAX,
        parts_of(all, shards),
    ensures
        ({
            let after = written_back(shards, corrections_of(shards, all, n));
            &&& after.len() == shards.len()
            &&& forall|i: int| 0 <= i < n ==> #[trigger] after[i] == Some(all[i])
            &&& forall|i: int| n <= i < shards.len() ==> #[trigger] after[i] == shards[i]
        }),
    decreases n,
{
    if n > 0 {
        lemma_written_back(shards, all, n - 1);
        let before = corrections_of(shards, all, n - 1);
        if shards[n - 1] is None {
            let corrections = corrections_of(shards, all, n);
            assert(corrections.drop_last() =~= before);
        }
    }
}

/// After a chunk was read and what the read corrects is written back, every disk holds its shard
/// again: the chunk is at full redundancy, however many disks had lost theirs.
pub proof fn law_read_restores_full_redundancy(
    results: Seq<StorageResult<Vec<u8>>>,
    all: Seq<Seq<u8>>,
)
    requires
        results.len() <= usize::MAX,
        parts_of(all, read_shards(results)),
    ensures
        ({
            let s = read_shards(results);
            let after = written_back(s, corrections_of(s, all, results.len() as int));
            &&& after.len() == all.len()
            &&& forall|i: int| 0 <= i < all.len() ==> #[trigger] after[i] == Some(all[i])
        }),
{
    lemma_written_back(read_shards(results), all, results.len() as int);
}

/// Whether appending `shard` to the handle `before` gives `after`.
pub open spec fn appended_one(
    before: Option<WriteHandle>,
    after: Option<WriteHandle>,
    shard: Seq<u8>,
) -> bool {
    match before {
        Some(b) => after matches Some(a) && a@ == b@ + shard_entry(shard) && a.version == b.version
            && a.chunk_size == b.chunk_size && a.actual_data_len == b.actual_data_len,
        None => after is None,
    }
}

/// Whether appending one of `shards` to each handle of `before` gives `after`.
pub open spec fn appended(
    before: Seq<Option<WriteHandle>>,
    after: Seq<Option<WriteHandle>>,
    shards: Seq<Seq<u8>>,
) -> bool {
    before.len() == after.len() == shards.len() && forall|i: int|
        0 <= i < before.len() ==> #[trigger] appended_one(before[i], after[i], shards[i])
}

/// Whether `r` is what reading a shard from `disk` gives when `entry` was read at its entry.
pub open spec fn is_read_of(
    disk: Disk,
    entry: StorageResult<Vec<u8>>,
    r: StorageResult<Vec<u8>>,
) -> bool {
    if disk.failed() {
        r matches Err(e) && e matches StorageError::DiskFailed(m) && m@ == disk.failed_text()
    } else {
        match entry {
            Err(e) => r == StorageResult::<Vec<u8>>::Err(e),
            Ok(bytes) => match r {
                Ok(shard) => intact_shard_at(bytes@, 0) == Some(shard@),
                Err(e) => intact_shard_at(bytes@, 0) is None && if entry_at(bytes@, 0) is None {
                    e matches StorageError::Transient(m) && m@ == entry_defect(bytes@, 0)
                } else {
                    e == (StorageError::ChecksumMismatch {
                        expected: entry_at(bytes@, 0).unwrap().0,
                        actual: xxh3(entry_at(bytes@, 0).unwrap().1),
                    })
                },
            },
        }
    }
}

proof fn lemma_recovered_content(
    k: nat,
    c: nat,
    level: Option<i32>,
    chunk: Seq<u8>,
    shards: Seq<Seq<u8>>,
    all: Seq<Seq<u8>>,
    joined: Seq<u8>,
)
    requires
        k > 0,
        is_chunk_encoding(k, c, level, chunk, shards),
        forall|data: Seq<Seq<u8>>, size: nat|
            #![trigger is_encoding(k, c, data, size)]
            is_encoding(k, c, data, size) && shards == encoded(k, c, data) ==> all == encoded(
                k,
                c,
                data,
            ),
        k <= all.len(),
        joined == flat(all.take(k as int)),
    ensures
        all == shards,
        level is None ==> chunk.is_prefix_of(joined),
        level is Some ==> exists|frame: Seq<u8>| #[trigger]
            is_frame_of(frame, chunk) && frame.is_prefix_of(joined),
{
    let payload = choose|payload: Seq<u8>|
        is_payload(level, chunk, payload) && #[trigger] are_shards_of_payload(
            k,
            c,
            payload,
            shards,
        );
    let data = data_shards_of(payload, k);
    assert(is_encoding(k, c, data, shard_size_of(payload.len(), k)));
    assert(all == encoded(k, c, data));
    assert(all.take(k as int) =~= data);
    lemma_data_shards_hold_payload(payload, k);
    assert(payload.is_prefix_of(joined));
    if level is Some {
        assert(is_frame_of(payload, chunk));
    }
}

/// The shard size for `len` bytes, if the shards of all disks together have a valid size.
fn checked_shard_size(len: usize, k: usize, n: usize) -> (r: Option<usize>)
    requires
        k > 0,
        n > 0,
    ensures
        r is Some <==> len + k <= usize::MAX && shard_size_of(len as nat, k as nat) * n
            <= usize::MAX,
        r matches Some(size) ==> size == shard_size_of(len as nat, k as nat),
{
    let ghost sn = shard_size_of(len as nat, k as nat);
    proof {
        lemma_shard_size(len as nat, k as nat);
        assert(sn * n >= sn) by (nonlinear_arith)
            requires
                n >= 1,
                sn >= 0,
        ;
    }
    if len > usize::MAX - k {
        return None;
    }
    let q: usize = (len + (k - 1)) / k;
    if q == usize::MAX {
        return None;
    }
    let size: usize = shard_size(len, k);
    match size.checked_mul(n) {
        Some(_) => Some(size),
        None => None,
    }
}

/// Appending the shards of a chunk puts the entry of its shard behind what each handle holds, for
/// every disk that takes part.
pub proof fn law_every_disk_gets_its_shard(
    before: Seq<Option<WriteHandle>>,
    after: Seq<Option<WriteHandle>>,
    shards: Seq<Seq<u8>>,
    i: int,
)
    requires
        appended(before, after, shards),
        0 <= i < before.len(),
    ensures
        after.len() == before.len(),
        before[i] is Some ==> after[i] is Some && after[i].unwrap()@ == before[i].unwrap()@
            + shard_entry(shards[i]),
        before[i] is None ==> after[i] is None,
{
    assert(appended_one(before[i], after[i], shards[i]));
}

/// A shard is taken from a disk only if the disk has not failed and its entry is intact; all else
/// is an error, so that it is restored from the other disks.
pub proof fn law_only_intact_shards_are_taken(
    disk: Disk,
    entry: StorageResult<Vec<u8>>,
    r: StorageResult<Vec<u8>>,
)
    requires
        is_read_of(disk, entry, r),
    ensures
        r is Ok <==> !disk.failed() && (entry matches Ok(bytes) && intact_shard_at(
            bytes@,
            0,
        ) is Some),
        r matches Ok(shard) ==> intact_shard_at(entry.unwrap()@, 0) == Some(shard@),
{
}

} // verus!
