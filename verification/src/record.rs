//! The binary record that holds the metadata of an object version.
//!
//! A record is the version number, the status, the object checksum, the data size, the chunk
//! checksums, the user metadata as JSON, the compression level and the encoded chunk sizes.
//! Older, shorter records are read too: what they do not hold is taken as empty.
use crate::bytes::{copy_range, extend_range, get_le, put_le};
use crate::disk::{VersionMeta, VersionStatus};
use crate::errors::{StorageError, StorageResult};
use crate::metadata_map::MetadataMap;
use crate::text::join2;
use vstd::prelude::*;

verus! {

use crate::bytes::{
    le_bytes, le_value, lemma_le_bytes_len, lemma_le_round_trip, lemma_pow256_values, pow256,
};
use crate::disk::{same_meta, status_byte};
use crate::metadata_map::pairs_map;
use crate::text::decimal;
use vstd::utf8::encode_utf8;

/// The JSON text of a map of strings.
pub uninterp spec fn metadata_json(m: Map<Seq<char>, Seq<char>>) -> Seq<char>;

/// The map of strings that a JSON text stands for, if it is one.
pub uninterp spec fn json_metadata(bytes: Seq<u8>) -> Option<Map<Seq<char>, Seq<char>>>;

/// The map with one pair.
pub open spec fn one_pair(key: Seq<char>, value: Seq<char>) -> Map<Seq<char>, Seq<char>> {
    Map::empty().insert(key, value)
}

/// Whether the JSON text of a small map can have `len` bytes: two for the empty map, and for one
/// pair at most six for each byte of its texts, with seven more.
pub open spec fn is_json_len(m: Map<Seq<char>, Seq<char>>, len: nat) -> bool {
    &&& m == Map::<Seq<char>, Seq<char>>::empty() ==> len == 2
    &&& forall|key: Seq<char>, value: Seq<char>|
        m == #[trigger] one_pair(key, value) ==> len <= 7 + 6 * (encode_utf8(key).len()
            + encode_utf8(value).len())
}

/// Calls `serde_json::to_string` on the map, with its keys in order. It always succeeds. The text
/// is named `metadata_json`, is not empty and stands for the map that it was made from. The text of
/// the empty map is a pair of braces, and an escaped character takes at most six bytes.
#[verifier::external_body]
fn to_json(pairs: &Vec<(String, String)>) -> (r: Result<String, String>)
    ensures
        r is Ok,
        r.unwrap()@ == metadata_json(pairs_map(pairs@)),
        json_metadata(encode_utf8(r.unwrap()@)) == Some(pairs_map(pairs@)),
        encode_utf8(r.unwrap()@).len() != 0,
        is_json_len(pairs_map(pairs@), encode_utf8(r.unwrap()@).len()),
{
    let map: std::collections::BTreeMap<String, String> = pairs.iter().cloned().collect();
    serde_json::to_string(&map).map_err(|e| e.to_string())
}

/// Calls `serde_json::from_slice` for a map of strings. The result is named `json_metadata`.
#[verifier::external_body]
fn from_json(bytes: &[u8]) -> (r: Option<Vec<(String, String)>>)
    ensures
        r is Some == json_metadata(bytes@) is Some,
        r is Some ==> pairs_map(r.unwrap()@) == json_metadata(bytes@).unwrap(),
{
    let map: Option<std::collections::BTreeMap<String, String>> = serde_json::from_slice(bytes).ok();
    map.map(|m| m.into_iter().collect())
}

/// Numbers as fields of `width` bytes, one behind the other.
pub open spec fn fields(s: Seq<nat>, width: nat) -> Seq<u8>
    decreases s.len(),
{
    if s.len() == 0 {
        Seq::empty()
    } else {
        fields(s.drop_last(), width) + le_bytes(s.last(), width)
    }
}

/// The numbers in `count` fields of `width` bytes from `from` on.
pub open spec fn fields_at(bytes: Seq<u8>, from: int, width: nat, count: nat) -> Seq<nat> {
    Seq::new(
        count,
        |i: int| le_value(bytes.subrange(from + i * width, from + i * width + width)),
    )
}

pub open spec fn nats_of_u128(s: Seq<u128>) -> Seq<nat> {
    Seq::new(s.len(), |i: int| s[i] as nat)
}

pub open spec fn nats_of_u32(s: Seq<u32>) -> Seq<nat> {
    Seq::new(s.len(), |i: int| s[i] as nat)
}

/// The byte that stands for a compression level.
pub open spec fn level_byte(level: Option<i32>) -> u8 {
    match level {
        Some(l) => (l + 1) as u8,
        None => 0xFF,
    }
}

/// The compression level that a byte stands for.
pub open spec fn level_of(byte: u8) -> Option<i32> {
    if byte == 0xFF {
        None
    } else {
        Some((byte as int - 1) as i32)
    }
}

/// The JSON of a version's metadata, as bytes.
pub open spec fn json_bytes(meta: VersionMeta) -> Seq<u8> {
    encode_utf8(metadata_json(meta.metadata@))
}

/// The record of a version.
pub open spec fn record_bytes(meta: VersionMeta) -> Seq<u8> {
    le_bytes(meta.version as nat, 8) + seq![status_byte(meta.status)] + le_bytes(
        meta.checksum as nat,
        16,
    ) + le_bytes(meta.data_size as nat, 8) + le_bytes(meta.chunk_checksums@.len(), 8) + fields(
        nats_of_u128(meta.chunk_checksums@),
        16,
    ) + le_bytes(json_bytes(meta).len() as u32 as nat, 4) + json_bytes(meta) + seq![
        level_byte(meta.compression_level),
    ] + le_bytes(meta.compressed_sizes@.len() as u32 as nat, 4) + fields(
        nats_of_u32(meta.compressed_sizes@),
        4,
    )
}

/// The chunk checksums in a record.
pub open spec fn record_checksums(bytes: Seq<u8>) -> Seq<nat> {
    if bytes.len() < 41 {
        Seq::empty()
    } else {
        let count = le_value(bytes.subrange(33, 41));
        if 41 + count * 16 <= bytes.len() {
            fields_at(bytes, 41, 16, count)
        } else {
            Seq::empty()
        }
    }
}

/// Where the length of the JSON stands in a record.
pub open spec fn record_json_pos(bytes: Seq<u8>) -> int {
    (41 + record_checksums(bytes).len() * 16) as int
}

/// The length of the JSON in a record.
pub open spec fn record_json_len(bytes: Seq<u8>) -> nat {
    let pos = record_json_pos(bytes);
    if pos + 4 <= bytes.len() {
        le_value(bytes.subrange(pos, pos + 4))
    } else {
        0
    }
}

/// The user metadata in a record.
pub open spec fn record_metadata(bytes: Seq<u8>) -> Map<Seq<char>, Seq<char>> {
    let start = record_json_pos(bytes) + 4;
    let len = record_json_len(bytes);
    if len > 0 && start + len <= bytes.len() {
        match json_metadata(bytes.subrange(start, start + len)) {
            Some(m) => m,
            None => Map::empty(),
        }
    } else {
        Map::empty()
    }
}

/// Where the compression level stands in a record.
pub open spec fn record_level_pos(bytes: Seq<u8>) -> int {
    record_json_pos(bytes) + 4 + record_json_len(bytes)
}

/// The compression level in a record.
pub open spec fn record_level(bytes: Seq<u8>) -> Option<i32> {
    let pos = record_level_pos(bytes);
    if pos + 5 <= bytes.len() {
        level_of(bytes[pos])
    } else {
        None
    }
}

/// The encoded chunk sizes in a record.
pub open spec fn record_sizes(bytes: Seq<u8>) -> Seq<nat> {
    let pos = record_level_pos(bytes);
    if pos + 5 <= bytes.len() {
        let count = le_value(bytes.subrange(pos + 1, pos + 5));
        if pos + 5 + count * 4 <= bytes.len() {
            fields_at(bytes, pos + 5, 4, count)
        } else {
            Seq::empty()
        }
    } else {
        Seq::empty()
    }
}

/// The time of the last modification that a metadata map holds.
pub open spec fn modified_in(m: Map<Seq<char>, Seq<char>>) -> Seq<char> {
    if m.contains_key("last-modified"@) {
        m["last-modified"@]
    } else {
        Seq::empty()
    }
}

/// Whether `bytes` starts like a record: a version number and a valid status.
pub open spec fn is_record(bytes: Seq<u8>) -> bool {
    bytes.len() >= 9 && bytes[8] <= 2
}

/// Whether `meta` is what the record `bytes` holds.
pub open spec fn is_record_of(bytes: Seq<u8>, meta: VersionMeta) -> bool {
    &&& meta.version == le_value(bytes.subrange(0, 8))
    &&& status_byte(meta.status) == bytes[8]
    &&& meta.checksum == if bytes.len() >= 25 {
        le_value(bytes.subrange(9, 25))
    } else {
        0
    }
    &&& meta.data_size == if bytes.len() >= 33 {
        le_value(bytes.subrange(25, 33)) as usize
    } else {
        0
    }
    &&& nats_of_u128(meta.chunk_checksums@) == record_checksums(bytes)
    &&& meta.metadata@ == record_metadata(bytes)
    &&& meta.last_modified@ == modified_in(record_metadata(bytes))
    &&& meta.compression_level == record_level(bytes)
    &&& nats_of_u32(meta.compressed_sizes@) == record_sizes(bytes)
}

/// Whether all that a version holds fits into a record: the compression level into its byte and
/// the lengths into theirs, and the time of the last modification is the one in the metadata.
pub open spec fn fits_record(meta: VersionMeta) -> bool {
    &&& (meta.compression_level matches Some(l) ==> -1 <= l <= 253)
    &&& json_bytes(meta).len() <= u32::MAX
    &&& meta.compressed_sizes@.len() <= u32::MAX
    &&& meta.last_modified@ == modified_in(meta.metadata@)
}

proof fn lemma_fields_len(s: Seq<nat>, width: nat)
    ensures
        fields(s, width).len() == s.len() * width,
    decreases s.len(),
{
    if s.len() > 0 {
        lemma_fields_len(s.drop_last(), width);
        lemma_le_bytes_len(s.last(), width);
        assert((s.len() - 1) * width + width == s.len() * width) by (nonlinear_arith);
    } else {
        assert(0 * width == 0);
    }
}

proof fn lemma_field(s: Seq<nat>, width: nat, i: int)
    requires
        0 <= i < s.len(),
    ensures
        0 <= i * width,
        i * width + width <= s.len() * width,
        fields(s, width).len() == s.len() * width,
        fields(s, width).subrange(i * width, i * width + width) == le_bytes(s[i], width),
    decreases s.len(),
{
    lemma_fields_len(s, width);
    lemma_fields_len(s.drop_last(), width);
    lemma_le_bytes_len(s.last(), width);
    assert(0 <= i * width && i * width + width <= s.len() * width) by (nonlinear_arith)
        requires
            0 <= i < s.len(),
            width >= 0,
    ;
    let head = fields(s.drop_last(), width);
    if i == s.len() - 1 {
        assert(head.len() == i * width);
        assert(fields(s, width).subrange(i * width, i * width + width) =~= le_bytes(
            s.last(),
            width,
        ));
    } else {
        lemma_field(s.drop_last(), width, i);
        assert(fields(s, width).subrange(i * width, i * width + width) =~= head.subrange(
            i * width,
            i * width + width,
        ));
        assert(s.drop_last()[i] == s[i]);
    }
}

proof fn lemma_fields_at(prefix: Seq<u8>, s: Seq<nat>, width: nat, suffix: Seq<u8>)
    requires
        forall|i: int| 0 <= i < s.len() ==> #[trigger] s[i] < pow256(width),
    ensures
        fields_at(prefix + fields(s, width) + suffix, prefix.len() as int, width, s.len()) == s,
{
    let bytes = prefix + fields(s, width) + suffix;
    let p = prefix.len() as int;
    assert forall|i: int| 0 <= i < s.len() implies #[trigger] fields_at(bytes, p, width, s.len())[i]
        == s[i] by {
        lemma_field(s, width, i);
        assert(bytes.subrange(p + i * width, p + i * width + width) =~= fields(s, width).subrange(
            i * width,
            i * width + width,
        ));
        lemma_le_round_trip(s[i], width);
    }
    assert(fields_at(bytes, p, width, s.len()) =~= s);
}

/// A record starts with the version number and the status.
pub proof fn lemma_record_head(meta: VersionMeta)
    ensures
        is_record(record_bytes(meta)),
        le_value(record_bytes(meta).subrange(0, 8)) == meta.version,
        record_bytes(meta)[8] == status_byte(meta.status),
{
    let bytes = record_bytes(meta);
    lemma_pow256_values();
    lemma_le_round_trip(meta.version as nat, 8);
    assert(bytes.subrange(0, 8) =~= le_bytes(meta.version as nat, 8));
}

/// Reading the record of a version gives the version back.
proof fn lemma_record_round_trip(meta: VersionMeta, m: VersionMeta)
    requires
        fits_record(meta),
        json_metadata(json_bytes(meta)) == Some(meta.metadata@),
        json_bytes(meta).len() > 0,
        is_record_of(record_bytes(meta), m),
    ensures
        same_meta(m, meta),
{
    let bytes = record_bytes(meta);
    let json = json_bytes(meta);
    let sums = nats_of_u128(meta.chunk_checksums@);
    let sizes = nats_of_u32(meta.compressed_sizes@);
    let n = sums.len() as int;
    lemma_pow256_values();
    lemma_le_round_trip(meta.version as nat, 8);
    lemma_le_round_trip(meta.checksum as nat, 16);
    lemma_le_round_trip(meta.data_size as nat, 8);
    assert(meta.chunk_checksums.len() == sums.len());
    lemma_le_round_trip(sums.len(), 8);
    lemma_le_round_trip(json.len(), 4);
    lemma_le_round_trip(sizes.len(), 4);
    lemma_fields_len(sums, 16);
    lemma_fields_len(sizes, 4);
    // The fixed part.
    assert(bytes.subrange(0, 8) =~= le_bytes(meta.version as nat, 8));
    assert(bytes[8] == status_byte(meta.status));
    assert(bytes.subrange(9, 25) =~= le_bytes(meta.checksum as nat, 16));
    assert(bytes.subrange(25, 33) =~= le_bytes(meta.data_size as nat, 8));
    assert(bytes.subrange(33, 41) =~= le_bytes(sums.len(), 8));
    // The chunk checksums.
    let head = bytes.take(41);
    let tail = bytes.skip(41 + n * 16);
    assert(bytes =~= head + fields(sums, 16) + tail);
    lemma_fields_at(head, sums, 16, tail);
    assert(record_checksums(bytes) == sums);
    let pos = 41 + n * 16;
    // The JSON.
    assert(bytes.subrange(pos, pos + 4) =~= le_bytes(json.len(), 4));
    assert(record_json_len(bytes) == json.len());
    assert(bytes.subrange(pos + 4, pos + 4 + json.len()) =~= json);
    assert(record_metadata(bytes) == meta.metadata@);
    // The level and the sizes.
    let lpos = pos + 4 + json.len();
    assert(bytes[lpos] == level_byte(meta.compression_level));
    assert(bytes.subrange(lpos + 1, lpos + 5) =~= le_bytes(sizes.len(), 4));
    let head2 = bytes.take(lpos + 5);
    assert(bytes =~= head2 + fields(sizes, 4) + Seq::<u8>::empty());
    lemma_fields_at(head2, sizes, 4, Seq::empty());
    assert(record_sizes(bytes) == sizes);
    assert(m.chunk_checksums@ =~= meta.chunk_checksums@) by {
        assert(m.chunk_checksums@.len() == nats_of_u128(m.chunk_checksums@).len());
        assert forall|i: int| 0 <= i < meta.chunk_checksums@.len() implies m.chunk_checksums@[i]
            == meta.chunk_checksums@[i] by {
            assert(nats_of_u128(m.chunk_checksums@)[i] == sums[i]);
        }
    }
    assert(m.compressed_sizes@ =~= meta.compressed_sizes@) by {
        assert(m.compressed_sizes@.len() == nats_of_u32(m.compressed_sizes@).len());
        assert forall|i: int| 0 <= i < meta.compressed_sizes@.len() implies m.compressed_sizes@[i]
            == meta.compressed_sizes@[i] by {
            assert(nats_of_u32(m.compressed_sizes@)[i] == sizes[i]);
        }
    }
}

/// The record of a version.
pub fn serialize_record(meta: &VersionMeta) -> (r: StorageResult<Vec<u8>>)
    requires
        meta.compression_level matches Some(l) ==> l < i32::MAX,
    ensures
        r is Ok,
        r.unwrap()@ == record_bytes(*meta),
        is_record(r.unwrap()@),
        is_json_len(meta.metadata@, json_bytes(*meta).len()),
        // Reading the record gives the version back.
        fits_record(*meta) ==> forall|m: VersionMeta| #[trigger]
            is_record_of(r.unwrap()@, m) ==> same_meta(m, *meta),
{
    let json = match to_json(meta.metadata.pairs()) {
        Ok(json) => json,
        Err(e) => {
            return Err(StorageError::KvError(join2("serialize metadata: ", e.as_str())));
        },
    };
    let json_data: &[u8] = json.as_str().as_bytes();
    let mut buf: Vec<u8> = Vec::new();
    put_le(&mut buf, meta.version as u128, 8);
    buf.push(meta.status.to_u8());
    put_le(&mut buf, meta.checksum, 16);
    put_le(&mut buf, meta.data_size as u128, 8);
    put_le(&mut buf, meta.chunk_checksums.len() as u128, 8);
    let ghost before = buf@;
    let ghost sums = nats_of_u128(meta.chunk_checksums@);
    let mut i: usize = 0;
    assert(sums.take(0) =~= Seq::empty());
    assert(buf@ + fields(sums.take(0), 16) =~= before);
    while i < meta.chunk_checksums.len()
        invariant
            i <= meta.chunk_checksums@.len(),
            sums == nats_of_u128(meta.chunk_checksums@),
            buf@ == before + fields(sums.take(i as int), 16),
        decreases meta.chunk_checksums.len() - i,
    {
        put_le(&mut buf, meta.chunk_checksums[i], 16);
        proof {
            assert(sums.take(i + 1).drop_last() =~= sums.take(i as int));
            assert(buf@ =~= before + fields(sums.take(i + 1), 16));
        }
        i += 1;
    }
    assert(sums.take(sums.len() as int) =~= sums);
    put_le(&mut buf, (json_data.len() as u32) as u128, 4);
    extend_range(&mut buf, json_data, 0, json_data.len());
    assert(json_data@.subrange(0, json_data@.len() as int) =~= json_data@);
    let level: u8 = match meta.compression_level {
        Some(l) => (l + 1) as u8,
        None => 0xFF,
    };
    buf.push(level);
    put_le(&mut buf, (meta.compressed_sizes.len() as u32) as u128, 4);
    let ghost before = buf@;
    let ghost sizes = nats_of_u32(meta.compressed_sizes@);
    let mut i: usize = 0;
    assert(sizes.take(0) =~= Seq::empty());
    assert(buf@ + fields(sizes.take(0), 4) =~= before);
    while i < meta.compressed_sizes.len()
        invariant
            i <= meta.compressed_sizes@.len(),
            sizes == nats_of_u32(meta.compressed_sizes@),
            buf@ == before + fields(sizes.take(i as int), 4),
        decreases meta.compressed_sizes.len() - i,
    {
        put_le(&mut buf, meta.compressed_sizes[i] as u128, 4);
        proof {
            assert(sizes.take(i + 1).drop_last() =~= sizes.take(i as int));
            assert(buf@ =~= before + fields(sizes.take(i + 1), 4));
        }
        i += 1;
    }
    assert(sizes.take(sizes.len() as int) =~= sizes);
    proof {
        lemma_le_bytes_len(meta.version as nat, 8);
        assert(buf@ =~= record_bytes(*meta));
        assert(buf@[8] == status_byte(meta.status));
        if fits_record(*meta) {
            assert forall|m: VersionMeta| #[trigger] is_record_of(buf@, m) implies same_meta(
                m,
                *meta,
            ) by {
                lemma_record_round_trip(*meta, m);
            }
        }
    }
    Ok(buf)
}

/// Read the record of a version.
pub fn deserialize_record(bytes: &[u8]) -> (r: StorageResult<VersionMeta>)
    ensures
        r is Ok <==> is_record(bytes@),
        r matches Ok(meta) ==> is_record_of(bytes@, meta),
        r matches Err(e) ==> if bytes@.len() < 9 {
            e matches StorageError::KvError(m) && m@ == "version metadata too short"@
        } else {
            e matches StorageError::Transient(m) && m@ == "unknown version status: "@ + decimal(
                bytes@[8] as nat,
            )
        },
{
    if bytes.len() < 9 {
        return Err(StorageError::KvError("version metadata too short".to_owned()));
    }
    proof {
        lemma_pow256_values();
    }
    let version: u64 = get_le(bytes, 0, 8) as u64;
    let status: VersionStatus = match VersionStatus::from_u8(bytes[8]) {
        Ok(status) => status,
        Err(e) => {
            return Err(e);
        },
    };
    let checksum: u128 = if bytes.len() >= 25 {
        get_le(bytes, 9, 16)
    } else {
        0
    };
    let data_size: usize = if bytes.len() >= 33 {
        get_le(bytes, 25, 8) as usize
    } else {
        0
    };
    let chunk_checksums: Vec<u128> = if bytes.len() >= 41 {
        let count: u128 = get_le(bytes, 33, 8);
        if count <= ((bytes.len() - 41) / 16) as u128 {
            read_u128s(bytes, 41, count as usize)
        } else {
            Vec::new()
        }
    } else {
        Vec::new()
    };
    assert(nats_of_u128(chunk_checksums@) =~= record_checksums(bytes@));
    let ghost pos = record_json_pos(bytes@);
    let json_pos: u128 = 41 + chunk_checksums.len() as u128 * 16;
    assert(json_pos == pos);
    let mut metadata = MetadataMap::new();
    let mut json_len: u128 = 0;
    if json_pos + 4 <= bytes.len() as u128 {
        json_len = get_le(bytes, json_pos as usize, 4);
        let start: u128 = json_pos + 4;
        if json_len > 0 && start + json_len <= bytes.len() as u128 {
            let json = copy_range(bytes, start as usize, (start + json_len) as usize);
            match from_json(json.as_slice()) {
                Some(pairs) => {
                    metadata = MetadataMap::from_pairs(pairs);
                },
                None => {},
            }
        }
    }
    assert(metadata@ =~= record_metadata(bytes@));
    assert(json_len == record_json_len(bytes@));
    let level_pos: u128 = json_pos + 4 + json_len;
    let mut compression_level: Option<i32> = None;
    let mut compressed_sizes: Vec<u32> = Vec::new();
    if level_pos + 5 <= bytes.len() as u128 {
        let p: usize = level_pos as usize;
        let enc_level: u8 = bytes[p];
        if enc_level != 0xFF {
            compression_level = Some(enc_level as i32 - 1);
        }
        let count: u128 = get_le(bytes, p + 1, 4);
        if count <= ((bytes.len() - (p + 5)) / 4) as u128 {
            compressed_sizes = read_u32s(bytes, p + 5, count as usize);
        }
    }
    assert(nats_of_u32(compressed_sizes@) =~= record_sizes(bytes@));
    let last_modified: String = match metadata.get("last-modified") {
        Some(v) => v,
        None => String::new(),
    };
    Ok(
        VersionMeta {
            version,
            chunk_checksums,
            checksum,
            status,
            data_size,
            last_modified,
            metadata,
            compression_level,
            compressed_sizes,
        },
    )
}

fn read_u128s(bytes: &[u8], from: usize, count: usize) -> (v: Vec<u128>)
    requires
        from + count * 16 <= bytes@.len(),
    ensures
        nats_of_u128(v@) == fields_at(bytes@, from as int, 16, count as nat),
{
    let mut v: Vec<u128> = Vec::new();
    let mut i: usize = 0;
    while i < count
        invariant
            i <= count,
            from + count * 16 <= bytes.len(),
            v@.len() == i,
            forall|j: int|
                0 <= j < i ==> (#[trigger] v@[j]) as nat == le_value(
                    bytes@.subrange(from + j * 16, from + j * 16 + 16),
                ),
        decreases count - i,
    {
        v.push(get_le(bytes, from + i * 16, 16));
        i += 1;
    }
    assert(nats_of_u128(v@) =~= fields_at(bytes@, from as int, 16, count as nat));
    v
}

fn read_u32s(bytes: &[u8], from: usize, count: usize) -> (v: Vec<u32>)
    requires
        from + count * 4 <= bytes@.len(),
    ensures
        nats_of_u32(v@) == fields_at(bytes@, from as int, 4, count as nat),
{
    let mut v: Vec<u32> = Vec::new();
    let mut i: usize = 0;
    while i < count
        invariant
            i <= count,
            from + count * 4 <= bytes.len(),
            v@.len() == i,
            forall|j: int|
                0 <= j < i ==> (#[trigger] v@[j]) as nat == le_value(
                    bytes@.subrange(from + j * 4, from + j * 4 + 4),
                ),
        decreases count - i,
    {
        proof {
            lemma_pow256_values();
        }
        v.push(get_le(bytes, from + i * 4, 4) as u32);
        i += 1;
    }
    assert(nats_of_u32(v@) =~= fields_at(bytes@, from as int, 4, count as nat));
    v
}

/// A record that ends behind the metadata, as records did before there was compression, is read as
/// one of a version without compression; all else that it says is read as from a whole record.
pub proof fn law_record_without_sizes_is_read(
    meta: VersionMeta,
    whole: VersionMeta,
    short: VersionMeta,
)
    requires
        json_bytes(meta).len() <= u32::MAX,
        is_record_of(record_bytes(meta), whole),
        is_record_of(
            record_bytes(meta).take(
                45int + 16 * meta.chunk_checksums@.len() + json_bytes(meta).len(),
            ),
            short,
        ),
    ensures
        short.compression_level is None,
        short.compressed_sizes@.len() == 0,
        short.version == whole.version,
        short.status == whole.status,
        short.checksum == whole.checksum,
        short.data_size == whole.data_size,
        nats_of_u128(short.chunk_checksums@) == nats_of_u128(whole.chunk_checksums@),
        short.metadata@ == whole.metadata@,
        short.last_modified@ == whole.last_modified@,
{
    let bytes = record_bytes(meta);
    let json = json_bytes(meta);
    let sums = nats_of_u128(meta.chunk_checksums@);
    let n = sums.len() as int;
    let end = 45 + 16 * n + json.len();
    let cut = bytes.take(end);
    lemma_pow256_values();
    lemma_le_round_trip(meta.version as nat, 8);
    lemma_le_round_trip(meta.checksum as nat, 16);
    lemma_le_round_trip(meta.data_size as nat, 8);
    assert(meta.chunk_checksums.len() == sums.len());
    lemma_le_round_trip(sums.len(), 8);
    lemma_le_round_trip(json.len(), 4);
    lemma_fields_len(sums, 16);
    assert(bytes.subrange(33, 41) =~= le_bytes(sums.len(), 8));
    let pos = 41 + n * 16;
    assert(bytes.subrange(pos, pos + 4) =~= le_bytes(json.len(), 4));
    assert(cut.subrange(0, 8) =~= bytes.subrange(0, 8));
    assert(cut.subrange(9, 25) =~= bytes.subrange(9, 25));
    assert(cut.subrange(25, 33) =~= bytes.subrange(25, 33));
    assert(cut.subrange(33, 41) =~= bytes.subrange(33, 41));
    assert(cut.subrange(pos, pos + 4) =~= bytes.subrange(pos, pos + 4));
    assert(record_checksums(bytes).len() == n);
    assert(record_checksums(cut) =~= record_checksums(bytes)) by {
        assert forall|i: int| 0 <= i < n implies record_checksums(cut)[i] == record_checksums(
            bytes,
        )[i] by {
            assert(cut.subrange(41 + i * 16, 41 + i * 16 + 16) =~= bytes.subrange(
                41 + i * 16,
                41 + i * 16 + 16,
            ));
        }
    }
    assert(record_json_len(cut) == json.len());
    assert(record_json_len(bytes) == json.len());
    assert(cut.subrange(pos + 4, pos + 4 + json.len()) =~= bytes.subrange(
        pos + 4,
        pos + 4 + json.len(),
    ));
    assert(record_metadata(cut) == record_metadata(bytes));
    assert(nats_of_u32(short.compressed_sizes@).len() == 0);
}

} // verus!
