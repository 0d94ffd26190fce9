//! Disk management and the mega-file format.
//!
//! A mega-file holds the shards that one disk has of one object version: a four-byte header and
//! then, for each chunk, an entry of checksum, length and shard data.
use crate::bytes::{copy_range, extend_range, get_le, put_le};
use crate::checksum::per_chunk_checksum;
use crate::cluster::ClusterId;
use crate::errors::{StorageError, StorageResult};
use crate::metadata_map::MetadataMap;
use crate::text::{chars_of, decimal_string, join2, join3, padded_decimal_string};
use vstd::prelude::*;

pub use crate::chunk_store::ChunkStore;

verus! {

use crate::bytes::{le_bytes, le_value, lemma_le_bytes_len, lemma_le_round_trip, lemma_pow256_values};
use crate::checksum::xxh3;
use crate::text::{decimal, zero_padded};

/// Status of a version in the KV store.
#[derive(Debug, Clone, Copy, PartialEq, Eq, Structural)]
pub enum VersionStatus {
    Committed,
    Pending,
    Deleted,
}

/// The byte that stands for a status.
pub open spec fn status_byte(status: VersionStatus) -> u8 {
    match status {
        VersionStatus::Committed => 0u8,
        VersionStatus::Pending => 1u8,
        VersionStatus::Deleted => 2u8,
    }
}

impl VersionStatus {
    /// The status that a byte stands for.
    pub fn from_u8(value: u8) -> (r: StorageResult<Self>)
        ensures
            r is Ok <==> value <= 2,
            r matches Ok(status) ==> status_byte(status) == value,
            r matches Err(e) ==> e matches StorageError::Transient(m) && m@
                == "unknown version status: "@ + decimal(value as nat),
    {
        if value == 0 {
            Ok(VersionStatus::Committed)
        } else if value == 1 {
            Ok(VersionStatus::Pending)
        } else if value == 2 {
            Ok(VersionStatus::Deleted)
        } else {
            Err(
                StorageError::Transient(
                    join2("unknown version status: ", decimal_string(value as u128).as_str()),
                ),
            )
        }
    }

    /// The byte that stands for this status.
    pub fn to_u8(&self) -> (r: u8)
        ensures
            r == status_byte(*self),
    {
        match self {
            VersionStatus::Committed => 0,
            VersionStatus::Pending => 1,
            VersionStatus::Deleted => 2,
        }
    }
}

/// Metadata for a bucket.
#[derive(Debug)]
pub struct BucketMeta {
    pub name: String,
    pub created_at: String,
}

impl Clone for BucketMeta {
    fn clone(&self) -> (r: Self)
        ensures
            r == *self,
    {
        BucketMeta { name: self.name.clone(), created_at: self.created_at.clone() }
    }
}

/// Metadata for a single object version.
#[derive(Debug)]
pub struct VersionMeta {
    pub version: u64,
    /// Checksum of each chunk's data before compression and erasure coding.
    pub chunk_checksums: Vec<u128>,
    /// Hash of the whole object.
    pub checksum: u128,
    pub status: VersionStatus,
    pub data_size: usize,
    /// Time this version was committed, as an RFC 3339 text in UTC.
    pub last_modified: String,
    /// User-defined metadata. Keys are lowercase; values may be any string.
    pub metadata: MetadataMap,
    /// Compression level used, if the chunks are compressed.
    pub compression_level: Option<i32>,
    /// Compressed size of each chunk in bytes: that of its shards together, of which every disk has
    /// an equal part.
    pub compressed_sizes: Vec<u32>,
}

/// Whether two versions hold the same values.
pub open spec fn same_meta(a: VersionMeta, b: VersionMeta) -> bool {
    &&& a.version == b.version
    &&& a.chunk_checksums@ == b.chunk_checksums@
    &&& a.checksum == b.checksum
    &&& a.status == b.status
    &&& a.data_size == b.data_size
    &&& a.last_modified@ == b.last_modified@
    &&& a.metadata@ == b.metadata@
    &&& a.compression_level == b.compression_level
    &&& a.compressed_sizes@ == b.compressed_sizes@
}

impl Clone for VersionMeta {
    fn clone(&self) -> (r: Self)
        ensures
            same_meta(r, *self),
    {
        let chunk_checksums = self.chunk_checksums.clone();
        let compressed_sizes = self.compressed_sizes.clone();
        assert(chunk_checksums@ =~= self.chunk_checksums@);
        assert(compressed_sizes@ =~= self.compressed_sizes@);
        VersionMeta {
            version: self.version,
            chunk_checksums,
            checksum: self.checksum,
            status: self.status,
            data_size: self.data_size,
            last_modified: self.last_modified.clone(),
            metadata: self.metadata.clone(),
            compression_level: self.compression_level,
            compressed_sizes,
        }
    }
}

/// The entry of a mega-file that holds `data` under the checksum `cksum`.
pub open spec fn entry_bytes(cksum: u128, data: Seq<u8>) -> Seq<u8> {
    le_bytes(cksum as nat, 16) + le_bytes(data.len(), 8) + data
}

/// The entry of a shard, with the shard's own checksum.
pub open spec fn shard_entry(shard: Seq<u8>) -> Seq<u8> {
    entry_bytes(xxh3(shard), shard)
}

/// The entries of shards, one behind the other.
pub open spec fn shard_entries(shards: Seq<Seq<u8>>) -> Seq<u8>
    decreases shards.len(),
{
    if shards.len() == 0 {
        Seq::empty()
    } else {
        shard_entries(shards.drop_last()) + shard_entry(shards.last())
    }
}

/// The header of a mega-file.
pub open spec fn mega_header(object_format: u8) -> Seq<u8> {
    seq![object_format, 0u8, 0u8, 0u8]
}

/// The mega-file that holds `shards`, one per chunk.
pub open spec fn mega_file(object_format: u8, shards: Seq<Seq<u8>>) -> Seq<u8> {
    mega_header(object_format) + shard_entries(shards)
}

/// The stored checksum and the data of the entry at `off`, if the entry is complete.
pub open spec fn entry_at(raw: Seq<u8>, off: int) -> Option<(u128, Seq<u8>)> {
    if off + 24 > raw.len() {
        None
    } else {
        let len = le_value(raw.subrange(off + 16, off + 24));
        if off + 24 + len > raw.len() {
            None
        } else {
            Some(
                (
                    le_value(raw.subrange(off, off + 16)) as u128,
                    raw.subrange(off + 24, off + 24 + len),
                ),
            )
        }
    }
}

/// What is said of an entry at `off` that is not complete: which part of it is cut off.
pub open spec fn entry_defect(raw: Seq<u8>, off: int) -> Seq<char> {
    if off + 16 > raw.len() {
        "read checksum failed: failed to fill whole buffer"@
    } else if off + 24 > raw.len() {
        "read length failed: failed to fill whole buffer"@
    } else {
        "read data failed: failed to fill whole buffer"@
    }
}

/// The shard that the entry at `off` holds: there if the entry is complete and its data has the
/// stored checksum.
pub open spec fn intact_shard_at(raw: Seq<u8>, off: int) -> Option<Seq<u8>> {
    match entry_at(raw, off) {
        Some((cksum, data)) if xxh3(data) == cksum => Some(data),
        _ => None,
    }
}

/// The data of all entries from `off` on, up to the first whose header is incomplete. There is
/// none if an entry's data is cut off.
pub open spec fn entries_from(raw: Seq<u8>, off: int) -> Option<Seq<Seq<u8>>>
    decreases raw.len() - off,
{
    if off < 0 || off + 24 > raw.len() {
        Some(Seq::empty())
    } else {
        match entry_at(raw, off) {
            None => None,
            Some((_, data)) => match entries_from(raw, off + 24 + data.len()) {
                None => None,
                Some(rest) => Some(seq![data] + rest),
            },
        }
    }
}

/// Whether the bytes from `off` on are complete entries, up to the very end.
pub open spec fn is_whole_from(raw: Seq<u8>, off: int) -> bool
    decreases raw.len() - off,
{
    ||| off == raw.len()
    ||| 0 <= off && match entry_at(raw, off) {
        None => false,
        Some((_, data)) => is_whole_from(raw, off + 24 + data.len()),
    }
}

/// The entries from `off` on, with entry `target` replaced by that of `data`; `index` is the
/// number of the entry at `off`. The replaced entry is as long as it says if complete entries
/// follow there, up to the end; else its length is damaged, and it is as long as that of `data`.
/// An incomplete header at the end is dropped. There is none if an entry that has to be kept is
/// cut off.
pub open spec fn replaced_from(
    raw: Seq<u8>,
    off: int,
    index: int,
    target: int,
    data: Seq<u8>,
) -> Option<Seq<u8>>
    decreases
        if off <= raw.len() {
            raw.len() - off
        } else {
            0
        },
{
    if off < 0 || off + 24 > raw.len() {
        Some(Seq::empty())
    } else {
        let len = le_value(raw.subrange(off + 16, off + 24));
        if index == target {
            let kept = if is_whole_from(raw, off + 24 + len) {
                len
            } else {
                data.len()
            };
            match replaced_from(raw, off + 24 + kept, index + 1, target, data) {
                None => None,
                Some(rest) => Some(shard_entry(data) + rest),
            }
        } else if off + 24 + len > raw.len() {
            None
        } else {
            match replaced_from(raw, off + 24 + len, index + 1, target, data) {
                None => None,
                Some(rest) => Some(raw.subrange(off, off + 24 + len) + rest),
            }
        }
    }
}

/// The sum of the first `n` entry sizes.
pub open spec fn sizes_before(sizes: Seq<u64>, n: int) -> int
    decreases n,
{
    if n <= 0 {
        0
    } else {
        sizes_before(sizes, n - 1) + sizes[n - 1]
    }
}

/// Where the entry of chunk `n` starts: behind the header and the entries of the chunks before it.
pub open spec fn entry_offset_of(sizes: Seq<u64>, n: int) -> int {
    4 + sizes_before(sizes, n)
}

/// Append the entry of `data` under the checksum `cksum`.
pub fn put_entry(out: &mut Vec<u8>, data: &[u8], cksum: u128)
    ensures
        final(out)@ == old(out)@ + entry_bytes(cksum, data@),
{
    put_le(out, cksum, 16);
    put_le(out, data.len() as u128, 8);
    extend_range(out, data, 0, data.len());
    proof {
        assert(data@.subrange(0, data@.len() as int) =~= data@);
        assert(out@ =~= old(out)@ + entry_bytes(cksum, data@));
    }
}

/// Whether the bytes from `start` on are complete entries, up to the very end.
fn is_whole(raw: &[u8], start: usize) -> (r: bool)
    requires
        start <= raw@.len(),
    ensures
        r == is_whole_from(raw@, start as int),
{
    let mut off: usize = start;
    while off < raw.len()
        invariant
            off <= raw@.len(),
            is_whole_from(raw@, start as int) == is_whole_from(raw@, off as int),
        decreases raw.len() - off,
    {
        if raw.len() - off < 24 {
            return false;
        }
        let len: u128 = get_le(raw, off + 16, 8);
        if len > (raw.len() - off - 24) as u128 {
            return false;
        }
        off = off + 24 + len as usize;
    }
    true
}

/// Read the entry at `off` and verify its checksum. The outer error says that the entry is cut
/// off, the inner one that its data does not have the stored checksum.
pub fn read_entry(raw: &[u8], off: usize) -> (r: StorageResult<StorageResult<Vec<u8>>>)
    ensures
        r is Ok <==> entry_at(raw@, off as int) is Some,
        r matches Ok(Ok(data)) ==> intact_shard_at(raw@, off as int) == Some(data@),
        r matches Ok(Err(e)) ==> intact_shard_at(raw@, off as int) is None && e == (
        StorageError::ChecksumMismatch {
            expected: entry_at(raw@, off as int).unwrap().0,
            actual: xxh3(entry_at(raw@, off as int).unwrap().1),
        }),
        r matches Err(e) ==> e matches StorageError::Transient(m) && m@ == entry_defect(
            raw@,
            off as int,
        ),
{
    if off > raw.len() || raw.len() - off < 16 {
        return Err(
            StorageError::Transient(
                "read checksum failed: failed to fill whole buffer".to_owned(),
            ),
        );
    }
    if raw.len() - off < 24 {
        return Err(
            StorageError::Transient(
                "read length failed: failed to fill whole buffer".to_owned(),
            ),
        );
    }
    let stored: u128 = get_le(raw, off, 16);
    let len: u128 = get_le(raw, off + 16, 8);
    let start: usize = off + 24;
    if len > (raw.len() - start) as u128 {
        return Err(
            StorageError::Transient(
                "read data failed: failed to fill whole buffer".to_owned(),
            ),
        );
    }
    let data = copy_range(raw, start, start + len as usize);
    let actual: u128 = per_chunk_checksum(data.as_slice());
    if actual != stored {
        Ok(Err(StorageError::ChecksumMismatch { expected: stored, actual }))
    } else {
        Ok(Ok(data))
    }
}

/// Where the entry of chunk `n` starts, if that is a valid file offset.
pub fn entry_offset(sizes: &[u64], n: usize) -> (r: Option<u64>)
    requires
        n <= sizes@.len(),
    ensures
        r is Some <==> entry_offset_of(sizes@, n as int) <= u64::MAX,
        r matches Some(off) ==> off == entry_offset_of(sizes@, n as int),
{
    let mut off: u64 = 4;
    let mut i: usize = 0;
    while i < n
        invariant
            i <= n <= sizes@.len(),
            off == entry_offset_of(sizes@, i as int),
        decreases n - i,
    {
        match off.checked_add(sizes[i]) {
            Some(next) => {
                off = next;
            },
            None => {
                proof {
                    lemma_sizes_before_monotonic(sizes@, i + 1, n as int);
                }
                return None;
            },
        }
        i += 1;
    }
    Some(off)
}

proof fn lemma_sizes_before_monotonic(sizes: Seq<u64>, a: int, b: int)
    requires
        0 <= a <= b,
    ensures
        0 <= sizes_before(sizes, a) <= sizes_before(sizes, b),
    decreases b,
{
    if a < b {
        lemma_sizes_before_monotonic(sizes, a, b - 1);
    } else if a > 0 {
        lemma_sizes_before_monotonic(sizes, a - 1, b - 1);
    }
}

/// An in-progress mega-file write. It collects the bytes that have to be appended to the file.
pub struct WriteHandle {
    pub version: u64,
    pub chunk_size: u32,
    pub actual_data_len: usize,
    /// The bytes collected since the handle was last drained.
    pub contents: Vec<u8>,
}

impl View for WriteHandle {
    type V = Seq<u8>;

    /// The collected bytes. Contracts speak of the other fields by their names.
    open spec fn view(&self) -> Seq<u8> {
        self.contents@
    }
}

impl WriteHandle {
    /// Hand out the collected bytes, which the caller appends to the file.
    pub fn drain(&mut self) -> (r: Vec<u8>)
        ensures
            r@ == old(self)@,
            final(self)@ == Seq::<u8>::empty(),
            final(self).version == old(self).version,
            final(self).chunk_size == old(self).chunk_size,
            final(self).actual_data_len == old(self).actual_data_len,
    {
        let mut out: Vec<u8> = Vec::new();
        std::mem::swap(&mut out, &mut self.contents);
        out
    }
}

/// The characters that stand for `c` in a directory name: those with a meaning in a path, and the
/// percent sign itself, are percent-encoded.
pub open spec fn safe_char(c: char) -> Seq<char> {
    if c == '/' {
        seq!['%', '2', 'F']
    } else if c == '\\' {
        seq!['%', '5', 'C']
    } else if c == ':' {
        seq!['%', '3', 'A']
    } else if c == '.' {
        seq!['%', '2', 'E']
    } else if c == '%' {
        seq!['%', '2', '5']
    } else {
        seq![c]
    }
}

/// The directory name for an object key.
pub open spec fn safe_key_of(key: Seq<char>) -> Seq<char>
    decreases key.len(),
{
    if key.len() == 0 {
        Seq::empty()
    } else {
        safe_char(key[0]) + safe_key_of(key.skip(1))
    }
}

/// Different object keys have different directory names.
pub proof fn law_directory_names_are_distinct(a: Seq<char>, b: Seq<char>)
    requires
        safe_key_of(a) == safe_key_of(b),
    ensures
        a == b,
    decreases a.len(),
{
    if a.len() == 0 {
        if b.len() > 0 {
            assert(safe_key_of(b).len() > 0);
        }
        assert(a =~= b);
    } else if b.len() == 0 {
        assert(safe_key_of(a).len() > 0);
    } else {
        let x = safe_char(a[0]);
        let y = safe_char(b[0]);
        let s = safe_key_of(a);
        assert(s[0] == x[0]);
        assert(s[0] == y[0]);
        assert(x.len() == 3 ==> s[1] == x[1] && s[2] == x[2]);
        assert(y.len() == 3 ==> s[1] == y[1] && s[2] == y[2]);
        assert(a[0] == b[0]);
        assert(safe_key_of(a.skip(1)) =~= s.skip(x.len() as int));
        assert(safe_key_of(b.skip(1)) =~= s.skip(x.len() as int));
        law_directory_names_are_distinct(a.skip(1), b.skip(1));
        assert(a =~= seq![a[0]] + a.skip(1));
        assert(b =~= seq![b[0]] + b.skip(1));
    }
}

/// A directory name holds no path separator.
pub proof fn lemma_safe_key_has_no_slash(key: Seq<char>, i: int)
    requires
        0 <= i < safe_key_of(key).len(),
    ensures
        safe_key_of(key)[i] != '/',
    decreases key.len(),
{
    let x = safe_char(key[0]);
    if i >= x.len() {
        lemma_safe_key_has_no_slash(key.skip(1), i - x.len());
    }
}

/// `name` below the directory `dir`.
pub open spec fn below(dir: Seq<char>, name: Seq<char>) -> Seq<char> {
    if dir.len() == 0 || dir.last() == '/' {
        dir + name
    } else {
        dir + "/"@ + name
    }
}

/// `name` below the directory `dir`.
pub fn path_below(dir: &str, name: &str) -> (r: String)
    ensures
        r@ == below(dir@, name@),
{
    let v = chars_of(dir);
    if v.len() == 0 || v[v.len() - 1] == '/' {
        join2(dir, name)
    } else {
        join3(dir, "/", name)
    }
}

/// The directory name for an object key.
pub fn safe_key(key: &str) -> (r: String)
    ensures
        r@ == safe_key_of(key@),
{
    let v = chars_of(key);
    let mut r = String::new();
    let mut i: usize = 0;
    assert(v@.skip(0) =~= v@);
    while i < v.len()
        invariant
            i <= v.len(),
            r@ + safe_key_of(v@.skip(i as int)) == safe_key_of(v@),
        decreases v.len() - i,
    {
        let ghost before = r@;
        let c: char = v[i];
        if c == '/' {
            push_three(&mut r, '%', '2', 'F');
        } else if c == '\\' {
            push_three(&mut r, '%', '5', 'C');
        } else if c == ':' {
            push_three(&mut r, '%', '3', 'A');
        } else if c == '.' {
            push_three(&mut r, '%', '2', 'E');
        } else if c == '%' {
            push_three(&mut r, '%', '2', '5');
        } else {
            r.push(c);
        }
        assert(v@.skip(i as int).skip(1) =~= v@.skip(i + 1));
        assert(r@ =~= before + safe_char(c));
        assert(r@ + safe_key_of(v@.skip(i + 1)) =~= before + safe_key_of(v@.skip(i as int)));
        i += 1;
    }
    assert(r@ + safe_key_of(v@.skip(v@.len() as int)) =~= r@);
    r
}

/// Add three characters to a text.
fn push_three(text: &mut String, a: char, b: char, c: char)
    ensures
        final(text)@ == old(text)@ + seq![a, b, c],
{
    text.push(a);
    text.push(b);
    text.push(c);
    assert(text@ =~= old(text)@ + seq![a, b, c]);
}

/// The file name of a version's mega-file.
pub open spec fn version_file_of(version: u64) -> Seq<char> {
    "v"@ + zero_padded(decimal(version as nat), 8)
}

/// The file name of a version's mega-file.
pub fn version_file_name(version: u64) -> (r: String)
    ensures
        r@ == version_file_of(version),
{
    join2("v", padded_decimal_string(version, 8).as_str())
}

/// A single physical disk.
#[derive(Debug)]
pub struct Disk {
    pub path: String,
    pub cluster_id: ClusterId,
    /// Whether the disk is marked as failed.
    pub is_failed: bool,
}

impl Clone for Disk {
    fn clone(&self) -> (r: Self)
        ensures
            r == *self,
    {
        Disk { path: self.path.clone(), cluster_id: self.cluster_id, is_failed: self.is_failed }
    }
}

impl Disk {
    /// Whether the disk is marked as failed.
    pub open spec fn failed(self) -> bool {
        self.is_failed
    }

    /// What a read from this disk reports when the disk is marked as failed.
    pub open spec fn failed_text(self) -> Seq<char> {
        "disk "@ + self.path@ + " is marked as failed"@
    }

    /// Create a new disk at the given path.
    pub fn new(path: String, cluster_id: ClusterId) -> (r: Self)
        ensures
            r.path@ == path@,
            r.cluster_id == cluster_id,
            !r.failed(),
    {
        Disk { path, cluster_id, is_failed: false }
    }

    /// Whether the disk is marked as failed.
    pub fn is_marked_failed(&self) -> (r: bool)
        ensures
            r == self.failed(),
    {
        self.is_failed
    }

    /// The error of a read from a disk that is marked as failed.
    pub fn failed_error(&self) -> (r: StorageError)
        ensures
            r matches StorageError::DiskFailed(m) && m@ == self.failed_text(),
    {
        StorageError::DiskFailed(join3("disk ", self.path.as_str(), " is marked as failed"))
    }

    /// The directory of this disk that holds the mega-files of an object.
    pub fn segments_path(&self, object_key: &str) -> (r: String)
        ensures
            r@ == below(below(self.path@, "segments"@), safe_key_of(object_key@)),
    {
        path_below(
            path_below(self.path.as_str(), "segments").as_str(),
            safe_key(object_key).as_str(),
        )
    }

    /// The directory of this disk for an object's in-progress writes.
    pub fn wip_path(&self, object_key: &str) -> (r: String)
        ensures
            r@ == below(below(self.path@, "wip"@), safe_key_of(object_key@)),
    {
        path_below(path_below(self.path.as_str(), "wip").as_str(), safe_key(object_key).as_str())
    }

    /// Start a mega-file. `object_format` is 0 for uncompressed and 1 for zstd-compressed chunks.
    pub fn open_write(&self, version: u64, chunk_size: u32, object_format: u8) -> (r: WriteHandle)
        ensures
            r@ == mega_header(object_format),
            r.version == version,
            r.chunk_size == chunk_size,
            r.actual_data_len == 0,
    {
        let mut contents: Vec<u8> = Vec::new();
        contents.push(object_format);
        contents.push(0u8);
        contents.push(0u8);
        contents.push(0u8);
        assert(contents@ =~= mega_header(object_format));
        WriteHandle { version, chunk_size, actual_data_len: 0, contents }
    }

    /// Append one chunk's shard to the mega-file.
    pub fn append_chunk(&self, handle: &mut WriteHandle, data: &[u8], cksum: u128)
        ensures
            final(handle)@ == old(handle)@ + entry_bytes(cksum, data@),
            final(handle).version == old(handle).version,
            final(handle).chunk_size == old(handle).chunk_size,
            final(handle).actual_data_len == old(handle).actual_data_len,
    {
        put_entry(&mut handle.contents, data, cksum);
    }

    /// Note the outcome of writing an entry to the disk: a write that the disk cut short marks it
    /// as failed.
    pub fn settle_write(&mut self, cut_short: bool, message: &str) -> (r: StorageError)
        ensures
            final(self).path == old(self).path,
            final(self).cluster_id == old(self).cluster_id,
            final(self).failed() == (old(self).failed() || cut_short),
            cut_short ==> (r matches StorageError::DiskFailed(m) && m@ == "write to "@ + old(
                self,
            ).path@ + " failed: "@ + message@),
            !cut_short ==> (r matches StorageError::Transient(m) && m@ == "write to "@ + old(
                self,
            ).path@ + " failed: "@ + message@),
    {
        let mut m = join3("write to ", self.path.as_str(), " failed: ");
        m.append(message);
        if cut_short {
            self.is_failed = true;
            StorageError::DiskFailed(m)
        } else {
            StorageError::Transient(m)
        }
    }

    /// Read shards from the contents of a mega-file: the one of chunk `target_chunk`, found by
    /// the sizes of the entries before it and verified against its checksum, or all of them in
    /// order.
    pub fn read_all_shards(
        &self,
        raw: &[u8],
        target_chunk: Option<usize>,
        entry_sizes: &[u64],
    ) -> (r: StorageResult<Vec<StorageResult<Vec<u8>>>>)
        requires
            target_chunk matches Some(n) ==> n <= entry_sizes@.len(),
        ensures
            self.failed() ==> (r matches Err(e) && e matches StorageError::DiskFailed(m) && m@
                == self.failed_text()),
            !self.failed() ==> match target_chunk {
                Some(n) => {
                    let off = entry_offset_of(entry_sizes@, n as int);
                    &&& r is Ok <==> entry_at(raw@, off) is Some
                    &&& r matches Ok(v) ==> v@.len() == 1 && match v@[0] {
                        Ok(data) => intact_shard_at(raw@, off) == Some(data@),
                        Err(e) => intact_shard_at(raw@, off) is None && e == (
                        StorageError::ChecksumMismatch {
                            expected: entry_at(raw@, off).unwrap().0,
                            actual: xxh3(entry_at(raw@, off).unwrap().1),
                        }),
                    }
                    &&& r matches Err(e) ==> e matches StorageError::Transient(m) && m@ == (
                    if raw@.len() < 4 {
                        "failed to read header: failed to fill whole buffer"@
                    } else {
                        entry_defect(raw@, off)
                    })
                },
                None => {
                    &&& r is Ok <==> raw@.len() >= 4 && entries_from(raw@, 4) is Some
                    &&& r matches Ok(v) ==> v@.len() == entries_from(raw@, 4).unwrap().len()
                        && forall|i: int|
                        0 <= i < v@.len() ==> (#[trigger] v@[i]) is Ok && v@[i].unwrap()@
                            == entries_from(raw@, 4).unwrap()[i]
                    &&& r matches Err(e) ==> e matches StorageError::Transient(m) && m@ == (
                    if raw@.len() < 4 {
                        "failed to read header: failed to fill whole buffer"@
                    } else {
                        "read data failed: failed to fill whole buffer"@
                    })
                },
            },
    {
        if self.is_failed {
            return Err(self.failed_error());
        }
        if raw.len() < 4 {
            proof {
                if let Some(n) = target_chunk {
                    lemma_sizes_before_monotonic(entry_sizes@, 0, n as int);
                }
            }
            return Err(
                StorageError::Transient(
                    "failed to read header: failed to fill whole buffer".to_owned(),
                ),
            );
        }
        match target_chunk {
            Some(n) => {
                let off: usize = match entry_offset(entry_sizes, n) {
                    Some(off) if off <= raw.len() as u64 => off as usize,
                    _ => {
                        return Err(
                            StorageError::Transient(
                                "read checksum failed: failed to fill whole buffer".to_owned(),
                            ),
                        );
                    },
                };
                let mut results: Vec<StorageResult<Vec<u8>>> = Vec::new();
                match read_entry(raw, off) {
                    Ok(result) => {
                        results.push(result);
                    },
                    Err(e) => {
                        return Err(e);
                    },
                }
                Ok(results)
            },
            None => self.read_shards_in_order(raw),
        }
    }

    fn read_shards_in_order(&self, raw: &[u8]) -> (r: StorageResult<Vec<StorageResult<Vec<u8>>>>)
        requires
            raw@.len() >= 4,
        ensures
            r is Ok <==> entries_from(raw@, 4) is Some,
            r matches Ok(v) ==> v@.len() == entries_from(raw@, 4).unwrap().len() && forall|i: int|
                0 <= i < v@.len() ==> (#[trigger] v@[i]) is Ok && v@[i].unwrap()@ == entries_from(
                    raw@,
                    4,
                ).unwrap()[i],
            r matches Err(e) ==> e matches StorageError::Transient(m) && m@
                == "read data failed: failed to fill whole buffer"@,
    {
        let mut results: Vec<StorageResult<Vec<u8>>> = Vec::new();
        let mut off: usize = 4;
        let ghost mut found: Seq<Seq<u8>> = Seq::empty();
        while raw.len() - off >= 24
            invariant
                4 <= off <= raw.len(),
                results@.len() == found.len(),
                forall|i: int|
                    0 <= i < results@.len() ==> (#[trigger] results@[i]) is Ok
                        && results@[i].unwrap()@ == found[i],
                entries_from(raw@, 4) == (match entries_from(raw@, off as int) {
                    None => None,
                    Some(rest) => Some(found + rest),
                }),
            decreases raw.len() - off,
        {
            let len: u128 = get_le(raw, off + 16, 8);
            let start: usize = off + 24;
            if len > (raw.len() - start) as u128 {
                return Err(
                    StorageError::Transient(
                        "read data failed: failed to fill whole buffer".to_owned(),
                    ),
                );
            }
            let data = copy_range(raw, start, start + len as usize);
            proof {
                if let Some(rest) = entries_from(raw@, start + len) {
                    assert(found + (seq![data@] + rest) =~= found.push(data@) + rest);
                }
                found = found.push(data@);
            }
            results.push(Ok(data));
            off = start + len as usize;
        }
        assert(found + Seq::<Seq<u8>>::empty() =~= found);
        Ok(results)
    }

    /// Repair an entry of a mega-file: the contents with entry `chunk_idx` replaced by that of
    /// `corrected_data` and all other entries kept. Where the length of the entry is damaged, the
    /// next one is found behind as many bytes as `corrected_data` has.
    pub fn fix_mega_file_entry(
        &self,
        raw: &[u8],
        chunk_idx: usize,
        corrected_data: &[u8],
    ) -> (r: StorageResult<Vec<u8>>)
        ensures
            self.failed() ==> (r matches Err(e) && e matches StorageError::DiskFailed(m) && m@
                == self.failed_text()),
            !self.failed() ==> (r is Ok <==> raw@.len() >= 4 && replaced_from(
                raw@,
                4,
                0,
                chunk_idx as int,
                corrected_data@,
            ) is Some),
            r matches Ok(out) ==> out@ == raw@.take(4) + replaced_from(
                raw@,
                4,
                0,
                chunk_idx as int,
                corrected_data@,
            ).unwrap(),
            !self.failed() ==> (r matches Err(e) ==> e matches StorageError::Transient(m) && m@ == (
            if raw@.len() < 4 {
                "mega-file header is cut off"@
            } else {
                "mega-file entry is cut off"@
            })),
    {
        if self.is_failed {
            return Err(self.failed_error());
        }
        if raw.len() < 4 {
            return Err(StorageError::Transient("mega-file header is cut off".to_owned()));
        }
        let mut out: Vec<u8> = Vec::new();
        extend_range(&mut out, raw, 0, 4);
        assert(out@ =~= raw@.take(4));
        let mut off: usize = 4;
        let mut index: usize = 0;
        let ghost whole = replaced_from(raw@, 4, 0, chunk_idx as int, corrected_data@);
        let ghost mut done: Seq<u8> = Seq::empty();
        assert(raw@.take(4) + done =~= out@);
        while raw.len() - off >= 24
            invariant
                4 <= off <= raw.len(),
                index <= off,
                !self.failed(),
                out@ == raw@.take(4) + done,
                whole == replaced_from(raw@, 4, 0, chunk_idx as int, corrected_data@),
                whole == (match replaced_from(
                    raw@,
                    off as int,
                    index as int,
                    chunk_idx as int,
                    corrected_data@,
                ) {
                    None => None,
                    Some(rest) => Some(done + rest),
                }),
            decreases raw.len() - off,
        {
            let len: u128 = get_le(raw, off + 16, 8);
            let start: usize = off + 24;
            let cut_off: bool = len > (raw.len() - start) as u128;
            if index == chunk_idx {
                let cksum: u128 = per_chunk_checksum(corrected_data);
                put_entry(&mut out, corrected_data, cksum);
                let stands: bool = !cut_off && is_whole(raw, start + len as usize);
                let kept: u128 = if stands {
                    len
                } else {
                    corrected_data.len() as u128
                };
                assert(stands == is_whole_from(raw@, start + len));
                let ghost next = replaced_from(
                    raw@,
                    start + kept,
                    index + 1,
                    chunk_idx as int,
                    corrected_data@,
                );
                proof {
                    let piece = shard_entry(corrected_data@);
                    if let Some(rest) = next {
                        assert(done + (piece + rest) =~= (done + piece) + rest);
                    }
                    assert(out@ =~= raw@.take(4) + (done + piece));
                    done = done + piece;
                }
                if kept > (raw.len() - start) as u128 {
                    assert(next == Some(Seq::<u8>::empty()));
                    assert(done + Seq::<u8>::empty() =~= done);
                    return Ok(out);
                }
                off = start + kept as usize;
            } else {
                if cut_off {
                    return Err(StorageError::Transient("mega-file entry is cut off".to_owned()));
                }
                let ghost next = replaced_from(
                    raw@,
                    start + len,
                    index + 1,
                    chunk_idx as int,
                    corrected_data@,
                );
                extend_range(&mut out, raw, off, start + len as usize);
                proof {
                    let piece = raw@.subrange(off as int, start + len);
                    if let Some(rest) = next {
                        assert(done + (piece + rest) =~= (done + piece) + rest);
                    }
                    assert(out@ =~= raw@.take(4) + (done + piece));
                    done = done + piece;
                }
                off = start + len as usize;
            }
            index += 1;
        }
        assert(done + Seq::<u8>::empty() =~= done);
        Ok(out)
    }
}

proof fn lemma_entry_at(prefix: Seq<u8>, data: Seq<u8>, suffix: Seq<u8>, cksum: u128)
    requires
        data.len() <= u64::MAX,
    ensures
        entry_at(prefix + entry_bytes(cksum, data) + suffix, prefix.len() as int) == Some(
            (cksum, data),
        ),
        entry_bytes(cksum, data).len() == 24 + data.len(),
        le_value(
            (prefix + entry_bytes(cksum, data) + suffix).subrange(
                prefix.len() as int + 16,
                prefix.len() as int + 24,
            ),
        ) == data.len(),
{
    let raw = prefix + entry_bytes(cksum, data) + suffix;
    let off = prefix.len() as int;
    lemma_pow256_values();
    lemma_le_round_trip(cksum as nat, 16);
    lemma_le_round_trip(data.len(), 8);
    assert(raw.subrange(off, off + 16) =~= le_bytes(cksum as nat, 16));
    assert(raw.subrange(off + 16, off + 24) =~= le_bytes(data.len(), 8));
    assert(raw.subrange(off + 24, off + 24 + data.len()) =~= data);
}

proof fn lemma_entries_split(shards: Seq<Seq<u8>>, i: int)
    requires
        0 <= i < shards.len(),
    ensures
        shard_entries(shards) == shard_entries(shards.take(i)) + shard_entry(shards[i])
            + shard_entries(shards.skip(i + 1)),
    decreases shards.len(),
{
    if i == shards.len() - 1 {
        assert(shards.take(i) =~= shards.drop_last());
        assert(shards.skip(i + 1) =~= Seq::empty());
        assert(shard_entries(shards) =~= shard_entries(shards.take(i)) + shard_entry(shards[i])
            + shard_entries(shards.skip(i + 1)));
    } else {
        let rest = shards.drop_last();
        lemma_entries_split(rest, i);
        assert(rest.take(i) =~= shards.take(i));
        assert(rest.skip(i + 1) =~= shards.skip(i + 1).drop_last());
        assert(shards.skip(i + 1).last() == shards.last());
        assert(shard_entries(shards) =~= shard_entries(shards.take(i)) + shard_entry(shards[i])
            + shard_entries(shards.skip(i + 1)));
    }
}

pub proof fn lemma_entries_len(shards: Seq<Seq<u8>>, sizes: Seq<u64>)
    requires
        shards.len() <= sizes.len(),
        forall|i: int| 0 <= i < shards.len() ==> 24 + (#[trigger] shards[i]).len() == sizes[i],
    ensures
        shard_entries(shards).len() == sizes_before(sizes, shards.len() as int),
    decreases shards.len(),
{
    if shards.len() > 0 {
        let rest = shards.drop_last();
        assert forall|i: int| 0 <= i < rest.len() implies 24 + (#[trigger] rest[i]).len()
            == sizes[i] by {
            assert(rest[i] == shards[i]);
        }
        lemma_entries_len(rest, sizes);
        let last = shards.last();
        lemma_le_bytes_len(xxh3(last) as nat, 16);
        lemma_le_bytes_len(last.len(), 8);
        assert(24 + shards[shards.len() - 1].len() == sizes[shards.len() - 1]);
    }
}

/// A shard that was appended to a mega-file is read back from where the sizes of the entries
/// before it say, whatever was appended before and after it.
pub proof fn law_shard_is_read_back(
    object_format: u8,
    shards: Seq<Seq<u8>>,
    sizes: Seq<u64>,
    n: int,
)
    requires
        0 <= n < shards.len() <= sizes.len(),
        forall|i: int| 0 <= i < shards.len() ==> 24 + (#[trigger] shards[i]).len() == sizes[i],
    ensures
        intact_shard_at(mega_file(object_format, shards), entry_offset_of(sizes, n)) == Some(
            shards[n],
        ),
{
    lemma_entries_split(shards, n);
    let before = mega_header(object_format) + shard_entries(shards.take(n));
    let after = shard_entries(shards.skip(n + 1));
    assert(24 + shards[n].len() == sizes[n]);
    lemma_entry_at(before, shards[n], after, xxh3(shards[n]));
    assert(mega_file(object_format, shards) =~= before + shard_entry(shards[n]) + after);
    let head = shards.take(n);
    assert forall|i: int| 0 <= i < head.len() implies 24 + (#[trigger] head[i]).len() == sizes[i] by {
        assert(head[i] == shards[i]);
    }
    lemma_entries_len(head, sizes);
}

proof fn lemma_entries_from(prefix: Seq<u8>, shards: Seq<Seq<u8>>)
    requires
        forall|i: int| 0 <= i < shards.len() ==> (#[trigger] shards[i]).len() <= u64::MAX,
    ensures
        entries_from(prefix + shard_entries(shards), prefix.len() as int) == Some(shards),
    decreases shards.len(),
{
    let raw = prefix + shard_entries(shards);
    if shards.len() == 0 {
        assert(raw =~= prefix);
        assert(shards =~= Seq::empty());
    } else {
        let first = shards[0];
        let rest = shards.drop_first();
        lemma_entries_split(shards, 0);
        assert(shards.take(0) =~= Seq::empty());
        assert(shards.skip(1) =~= rest);
        assert(raw =~= prefix + shard_entry(first) + shard_entries(rest));
        lemma_entry_at(prefix, first, shard_entries(rest), xxh3(first));
        let longer = prefix + shard_entry(first);
        assert(longer.len() == prefix.len() + 24 + first.len());
        assert forall|i: int| 0 <= i < rest.len() implies (#[trigger] rest[i]).len()
            <= u64::MAX by {
            assert(rest[i] == shards[i + 1]);
        }
        lemma_entries_from(longer, rest);
        assert(raw =~= longer + shard_entries(rest));
        assert(seq![first] + rest =~= shards);
    }
}

/// Reading a mega-file in order gives all shards that were appended to it.
pub proof fn law_all_shards_are_read_back(object_format: u8, shards: Seq<Seq<u8>>)
    requires
        forall|i: int| 0 <= i < shards.len() ==> (#[trigger] shards[i]).len() <= u64::MAX,
    ensures
        entries_from(mega_file(object_format, shards), 4) == Some(shards),
{
    lemma_entries_from(mega_header(object_format), shards);
}

proof fn lemma_whole(prefix: Seq<u8>, shards: Seq<Seq<u8>>)
    requires
        forall|i: int| 0 <= i < shards.len() ==> (#[trigger] shards[i]).len() <= u64::MAX,
    ensures
        is_whole_from(prefix + shard_entries(shards), prefix.len() as int),
    decreases shards.len(),
{
    let raw = prefix + shard_entries(shards);
    if shards.len() > 0 {
        let first = shards[0];
        let rest = shards.drop_first();
        lemma_entries_split(shards, 0);
        assert(shards.take(0) =~= Seq::empty());
        assert(shards.skip(1) =~= rest);
        assert(raw =~= prefix + shard_entry(first) + shard_entries(rest));
        lemma_entry_at(prefix, first, shard_entries(rest), xxh3(first));
        let longer = prefix + shard_entry(first);
        assert forall|i: int| 0 <= i < rest.len() implies (#[trigger] rest[i]).len()
            <= u64::MAX by {
            assert(rest[i] == shards[i + 1]);
        }
        lemma_whole(longer, rest);
        assert(raw =~= longer + shard_entries(rest));
    }
}

proof fn lemma_whole_is_kept(raw: Seq<u8>, off: int, index: int, target: int, data: Seq<u8>)
    requires
        0 <= off,
        is_whole_from(raw, off),
        target < index,
    ensures
        off <= raw.len(),
        replaced_from(raw, off, index, target, data) == Some(raw.skip(off)),
    decreases raw.len() - off,
{
    if off == raw.len() {
        assert(raw.skip(off) =~= Seq::empty());
    } else {
        let len = entry_at(raw, off).unwrap().1.len() as int;
        assert(len == le_value(raw.subrange(off + 16, off + 24)));
        lemma_whole_is_kept(raw, off + 24 + len, index + 1, target, data);
        assert(raw.subrange(off, off + 24 + len) + raw.skip(off + 24 + len) =~= raw.skip(off));
    }
}

/// The entries of `shards` with the one at `n` damaged to the bytes `bad`.
pub open spec fn damaged_entries(shards: Seq<Seq<u8>>, n: int, bad: Seq<u8>) -> Seq<u8> {
    shard_entries(shards.take(n)) + bad + shard_entries(shards.skip(n + 1))
}

proof fn lemma_kept_before(
    prefix: Seq<u8>,
    head: Seq<Seq<u8>>,
    tail: Seq<u8>,
    index: int,
    data: Seq<u8>,
)
    requires
        forall|i: int| 0 <= i < head.len() ==> (#[trigger] head[i]).len() <= u64::MAX,
    ensures
        ({
            let raw = prefix + shard_entries(head) + tail;
            let off = prefix.len() as int;
            let target = index + head.len();
            replaced_from(raw, off, index, target, data) == (match replaced_from(
                raw,
                off + shard_entries(head).len(),
                target,
                target,
                data,
            ) {
                None => None,
                Some(rest) => Some(shard_entries(head) + rest),
            })
        }),
    decreases head.len(),
{
    let raw = prefix + shard_entries(head) + tail;
    let off = prefix.len() as int;
    let target = index + head.len();
    if head.len() == 0 {
        if let Some(rest) = replaced_from(raw, off, index, target, data) {
            assert(shard_entries(head) + rest =~= rest);
        }
    } else {
        let first = head[0];
        let rest = head.drop_first();
        lemma_entries_split(head, 0);
        assert(head.take(0) =~= Seq::empty());
        assert(head.skip(1) =~= rest);
        assert(shard_entries(head) =~= shard_entry(first) + shard_entries(rest));
        assert(raw =~= prefix + shard_entry(first) + (shard_entries(rest) + tail));
        lemma_entry_at(prefix, first, shard_entries(rest) + tail, xxh3(first));
        let longer = prefix + shard_entry(first);
        assert(raw =~= longer + shard_entries(rest) + tail);
        assert(raw.subrange(off, longer.len() as int) =~= shard_entry(first));
        assert forall|i: int| 0 <= i < rest.len() implies (#[trigger] rest[i]).len()
            <= u64::MAX by {
            assert(rest[i] == head[i + 1]);
        }
        lemma_kept_before(longer, rest, tail, index + 1, data);
        let at = off + shard_entries(head).len();
        if let Some(found) = replaced_from(raw, at, target, target, data) {
            assert(shard_entry(first) + (shard_entries(rest) + found) =~= shard_entries(head)
                + found);
        }
    }
}

/// Whether the stored length of an entry damaged to `bad` leads to complete entries, up to the end
/// of the mega-file.
pub open spec fn length_stands(
    object_format: u8,
    shards: Seq<Seq<u8>>,
    n: int,
    bad: Seq<u8>,
) -> bool {
    is_whole_from(
        mega_header(object_format) + damaged_entries(shards, n, bad),
        4int + shard_entries(shards.take(n)).len() + 24 + le_value(bad.subrange(16, 24)),
    )
}

proof fn lemma_repaired(
    object_format: u8,
    shards: Seq<Seq<u8>>,
    n: int,
    bad: Seq<u8>,
    data: Seq<u8>,
)
    requires
        0 <= n < shards.len(),
        bad.len() >= 24,
        forall|i: int| 0 <= i < shards.len() ==> (#[trigger] shards[i]).len() <= u64::MAX,
    ensures
        ({
            let raw = mega_header(object_format) + damaged_entries(shards, n, bad);
            let start = 4int + shard_entries(shards.take(n)).len() + 24;
            let kept = if length_stands(object_format, shards, n, bad) {
                le_value(bad.subrange(16, 24))
            } else {
                data.len()
            };
            replaced_from(raw, 4, 0, n, data) == (match replaced_from(
                raw,
                start + kept,
                n + 1,
                n,
                data,
            ) {
                None => None,
                Some(rest) => Some(shard_entries(shards.take(n)) + (shard_entry(data) + rest)),
            })
        }),
{
    let header = mega_header(object_format);
    let head = shards.take(n);
    let tail = bad + shard_entries(shards.skip(n + 1));
    let raw = header + damaged_entries(shards, n, bad);
    let off = 4 + shard_entries(head).len() as int;
    assert(raw =~= header + shard_entries(head) + tail);
    assert forall|i: int| 0 <= i < head.len() implies (#[trigger] head[i]).len() <= u64::MAX by {
        assert(head[i] == shards[i]);
    }
    lemma_kept_before(header, head, tail, 0, data);
    assert(raw.subrange(off + 16, off + 24) =~= bad.subrange(16, 24));
}

/// Repairing a damaged entry with its shard gives back the mega-file as it was written: the entry
/// is restored and all others are kept. The damage may be anywhere in the entry, its length
/// included, unless the damaged length leads to complete entries again.
pub proof fn law_repair_restores_mega_file(
    object_format: u8,
    shards: Seq<Seq<u8>>,
    n: int,
    bad: Seq<u8>,
)
    requires
        0 <= n < shards.len(),
        bad.len() == 24 + shards[n].len(),
        le_value(bad.subrange(16, 24)) == shards[n].len() || !length_stands(
            object_format,
            shards,
            n,
            bad,
        ),
        forall|i: int| 0 <= i < shards.len() ==> (#[trigger] shards[i]).len() <= u64::MAX,
    ensures
        ({
            let raw = mega_header(object_format) + damaged_entries(shards, n, bad);
            &&& replaced_from(raw, 4, 0, n, shards[n]) is Some
            &&& raw.take(4) + replaced_from(raw, 4, 0, n, shards[n]).unwrap() == mega_file(
                object_format,
                shards,
            )
        }),
{
    let raw = mega_header(object_format) + damaged_entries(shards, n, bad);
    let before = mega_header(object_format) + shard_entries(shards.take(n)) + bad;
    let after = shards.skip(n + 1);
    lemma_repaired(object_format, shards, n, bad, shards[n]);
    assert forall|i: int| 0 <= i < after.len() implies (#[trigger] after[i]).len() <= u64::MAX by {
        assert(after[i] == shards[n + 1 + i]);
    }
    lemma_whole(before, after);
    assert(raw =~= before + shard_entries(after));
    lemma_whole_is_kept(raw, before.len() as int, n + 1, n, shards[n]);
    assert(raw.skip(before.len() as int) =~= shard_entries(after));
    lemma_entries_split(shards, n);
    assert(raw.take(4) =~= mega_header(object_format));
    assert(shard_entries(shards.take(n)) + (shard_entry(shards[n]) + shard_entries(after))
        =~= shard_entries(shards));
}

/// Where the stored length of a damaged entry leads to complete entries, up to the end of the
/// mega-file, a repair goes by it: the entries before the damaged one are kept, it is replaced, and
/// what stands behind that length is kept as it is.
pub proof fn law_repair_goes_by_length_that_stands(
    object_format: u8,
    shards: Seq<Seq<u8>>,
    n: int,
    bad: Seq<u8>,
    data: Seq<u8>,
)
    requires
        0 <= n < shards.len(),
        bad.len() >= 24,
        length_stands(object_format, shards, n, bad),
        forall|i: int| 0 <= i < shards.len() ==> (#[trigger] shards[i]).len() <= u64::MAX,
    ensures
        ({
            let raw = mega_header(object_format) + damaged_entries(shards, n, bad);
            let end = 4int + shard_entries(shards.take(n)).len() + 24 + le_value(
                bad.subrange(16, 24),
            );
            replaced_from(raw, 4, 0, n, data) == Some(
                shard_entries(shards.take(n)) + (shard_entry(data) + raw.skip(end)),
            )
        }),
{
    let raw = mega_header(object_format) + damaged_entries(shards, n, bad);
    let end = 4int + shard_entries(shards.take(n)).len() + 24 + le_value(bad.subrange(16, 24));
    lemma_repaired(object_format, shards, n, bad, data);
    lemma_whole_is_kept(raw, end, n + 1, n, data);
}

#[verifier::spinoff_prover]
proof fn lemma_written_length_stands(object_format: u8, shards: Seq<Seq<u8>>, n: int)
    requires
        0 <= n < shards.len(),
        forall|i: int| 0 <= i < shards.len() ==> (#[trigger] shards[i]).len() <= u64::MAX,
    ensures
        mega_file(object_format, shards) == mega_header(object_format) + damaged_entries(
            shards,
            n,
            shard_entry(shards[n]),
        ),
        shard_entry(shards[n]).len() == 24 + shards[n].len(),
        le_value(shard_entry(shards[n]).subrange(16, 24)) == shards[n].len(),
        length_stands(object_format, shards, n, shard_entry(shards[n])),
{
    let raw = mega_file(object_format, shards);
    let entry = shard_entry(shards[n]);
    let before = mega_header(object_format) + shard_entries(shards.take(n));
    let after = shards.skip(n + 1);
    let at = before.len() as int;
    lemma_entries_split(shards, n);
    assert(raw =~= mega_header(object_format) + damaged_entries(shards, n, entry));
    lemma_entry_at(before, shards[n], shard_entries(after), xxh3(shards[n]));
    assert(raw =~= before + entry + shard_entries(after));
    assert(raw.subrange(at + 16, at + 24) =~= entry.subrange(16, 24));
    assert forall|i: int| 0 <= i < after.len() implies (#[trigger] after[i]).len() <= u64::MAX by {
        assert(after[i] == shards[n + 1 + i]);
    }
    lemma_whole(before + entry, after);
}

/// Replacing an entry of a mega-file gives the mega-file with the other shard in its place,
/// whatever the lengths of the two are.
#[verifier::spinoff_prover]
pub proof fn law_replaced_shard_takes_its_place(
    object_format: u8,
    shards: Seq<Seq<u8>>,
    n: int,
    data: Seq<u8>,
)
    requires
        0 <= n < shards.len(),
        forall|i: int| 0 <= i < shards.len() ==> (#[trigger] shards[i]).len() <= u64::MAX,
    ensures
        ({
            let raw = mega_file(object_format, shards);
            &&& replaced_from(raw, 4, 0, n, data) is Some
            &&& raw.take(4) + replaced_from(raw, 4, 0, n, data).unwrap() == mega_file(
                object_format,
                shards.update(n, data),
            )
        }),
{
    let raw = mega_file(object_format, shards);
    let entry = shard_entry(shards[n]);
    let head = shard_entries(shards.take(n));
    let after = shard_entries(shards.skip(n + 1));
    let changed = shards.update(n, data);
    lemma_written_length_stands(object_format, shards, n);
    law_repair_goes_by_length_that_stands(object_format, shards, n, entry, data);
    assert(raw.skip(4int + head.len() + entry.len()) =~= after);
    assert(shard_entries(changed) == head + shard_entry(data) + after) by {
        lemma_entries_split(changed, n);
        assert(changed.take(n) =~= shards.take(n));
        assert(changed.skip(n + 1) =~= shards.skip(n + 1));
    }
    assert(raw.take(4) =~= mega_header(object_format));
    assert(head + (shard_entry(data) + after) =~= shard_entries(changed));
}

/// Bitrot is detected: an entry whose data does not have the checksum that is stored with it is not
/// read as a shard, wherever it stands, and one whose data has it is read as that data.
pub proof fn law_damaged_entry_is_not_read(
    before: Seq<u8>,
    cksum: u128,
    data: Seq<u8>,
    after: Seq<u8>,
)
    requires
        data.len() <= u64::MAX,
    ensures
        cksum != xxh3(data) ==> intact_shard_at(
            before + entry_bytes(cksum, data) + after,
            before.len() as int,
        ) is None,
        cksum == xxh3(data) ==> intact_shard_at(
            before + entry_bytes(cksum, data) + after,
            before.len() as int,
        ) == Some(data),
{
    lemma_entry_at(before, data, after, cksum);
}

/// The directory name of an object holds no character that has a meaning in a path.
pub proof fn law_directory_name_is_one_plain_name(key: Seq<char>)
    ensures
        !safe_key_of(key).contains('/'),
        !safe_key_of(key).contains('\\'),
        !safe_key_of(key).contains(':'),
        !safe_key_of(key).contains('.'),
        key.len() > 0 ==> safe_key_of(key).len() > 0,
    decreases key.len(),
{
    if key.len() > 0 {
        let first = safe_char(key[0]);
        let rest = safe_key_of(key.skip(1));
        law_directory_name_is_one_plain_name(key.skip(1));
        assert forall|c: char|
            c == '/' || c == '\\' || c == ':' || c == '.' implies !(#[trigger] safe_key_of(
            key,
        ).contains(c)) by {
            if safe_key_of(key).contains(c) {
                let i = choose|i: int|
                    0 <= i < safe_key_of(key).len() && safe_key_of(key)[i] == c;
                if i < first.len() {
                    assert(first[i] == c);
                } else {
                    assert(rest[i - first.len()] == c);
                }
            }
        }
    }
}

} // verus!
