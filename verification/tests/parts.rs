//! The parts of the store on their own.
use yotepack::api::{get_metadata_value, ObjectReader};
use yotepack::apis::s3::{
    bucket_name, create_bucket, delete_bucket, etag, get_object_with_date, head_object_with_date,
    hex_bytes, http_date, list_buckets_xml, list_objects_xml, listed_bucket, object_key,
    parse_range, put_object, s3_error_xml, storage_error_to_response, ContentEntry, ListXmlParams,
};
use yotepack::buckets::bucket_exists;
use yotepack::checksum::{
    object_hash, per_chunk_checksum, verify_chunk_checksum, verify_object_hash,
    StreamingObjectHash,
};
use yotepack::chunk_store::ChunkStore;
use yotepack::cluster::ClusterId;
use yotepack::compression::decode_first_frame;
use yotepack::config::{should_compress, Config};
use yotepack::disk::{
    entry_offset, put_entry, read_entry, safe_key, version_file_name, BucketMeta, Disk,
    VersionMeta, VersionStatus,
};
use yotepack::erasure::{reconstruct, ErasureCoder};
use yotepack::errors::{StorageError, StorageResult};
use yotepack::metadata::{
    counter_key, object_key_of, version_key, KvRead, ReadStep, ReplicatedMetaStore,
};
use yotepack::metadata_map::MetadataMap;
use yotepack::operations::{get_acl, range_part};
use yotepack::record::{deserialize_record, serialize_record};
use yotepack::shards::{shard_size, split_payload};
use yotepack::text::{decimal_string, hex_string, padded_decimal_string, parse_u64, trim};
use yotepack::versions::{disk_versions, DiskVersions};

fn config(failures: u32) -> Config {
    Config {
        disk_paths: (0..2 * failures + 1).map(|i| format!("/d{i}")).collect(),
        disk_failures: failures,
        metadata_replicas: 0,
        disk_uuids: Vec::new(),
        compression_level: None,
    }
}

fn meta(version: u64, status: VersionStatus) -> VersionMeta {
    VersionMeta {
        version,
        chunk_checksums: vec![1, u128::MAX],
        checksum: 0xabcdef,
        status,
        data_size: 70_000_000,
        last_modified: "2024-01-02T03:04:05+00:00".to_string(),
        metadata: MetadataMap::from_pairs(vec![
            ("color".to_string(), "b\"lue".to_string()),
            ("last-modified".to_string(), "2024-01-02T03:04:05+00:00".to_string()),
        ]),
        compression_level: Some(3),
        compressed_sizes: vec![100, 7],
    }
}

#[test]
fn texts_of_numbers() {
    assert_eq!(decimal_string(0), "0");
    assert_eq!(decimal_string(u128::MAX), "340282366920938463463374607431768211455");
    assert_eq!(hex_string(0xabc), "abc");
    assert_eq!(padded_decimal_string(42, 8), "00000042");
    assert_eq!(padded_decimal_string(123456789, 8), "123456789");
    assert_eq!(parse_u64("18446744073709551615"), Some(u64::MAX));
    assert_eq!(parse_u64("18446744073709551616"), None);
    assert_eq!(parse_u64("+7"), Some(7));
    assert_eq!(parse_u64("-7"), None);
    assert_eq!(parse_u64(""), None);
    assert_eq!(trim(" \t a b \n"), "a b");
}

#[test]
fn configurations_are_checked() {
    assert_eq!(config(2).data_shards(), 3);
    assert_eq!(config(2).parity_shards(), 2);
    assert_eq!(config(2).total_shards(), 5);
    assert_eq!(config(2).effective_replicas(), 5);
    assert!(config(1).validate().is_ok());
    let mut short = config(1);
    short.disk_paths.pop();
    assert_eq!(
        short.validate().unwrap_err(),
        "disk_paths count (2) does not match total_shards (3)"
    );
    let mut ids = config(1);
    ids.disk_uuids = vec!["x".to_string()];
    assert_eq!(
        ids.validate().unwrap_err(),
        "disk_uuids count (1) does not match total_shards (3)"
    );
    let made = Config::with_disks(vec!["/a".into(), "/b".into(), "/c".into()], 1).unwrap();
    assert_eq!(made.disk_failures, 1);
    assert_eq!(
        Config::with_disks(vec!["/a".into()], 1).unwrap_err(),
        "--disk requires 3 paths (for M=1 failures), got 1"
    );
}

#[test]
fn only_compressible_types_are_compressed() {
    assert!(should_compress(Some("text/plain"), Some(3)));
    assert!(should_compress(Some(" application/json; charset=utf-8"), Some(1)));
    assert!(!should_compress(Some("image/png"), Some(3)));
    assert!(!should_compress(Some("text/plain"), Some(0)));
    assert!(!should_compress(Some("text/plain"), None));
    assert!(!should_compress(None, Some(3)));
}

#[test]
fn checksums_are_those_of_their_algorithms() {
    assert_eq!(per_chunk_checksum(b"abc"), xxhash_rust::xxh3::xxh3_128(b"abc"));
    let hash = blake3::hash(b"abc");
    let expected = u128::from_le_bytes(hash.as_bytes()[..16].try_into().unwrap());
    assert_eq!(object_hash(b"abc"), expected);
    let mut streaming = StreamingObjectHash::new();
    streaming.update(b"a");
    streaming.update(b"bc");
    assert_eq!(streaming.finalize(), expected);
    assert!(verify_chunk_checksum(b"abc", per_chunk_checksum(b"abc")).is_ok());
    assert!(matches!(
        verify_chunk_checksum(b"abc", 1),
        Err(StorageError::ChecksumMismatch { expected: 1, .. })
    ));
    assert!(verify_object_hash(b"abc", expected).is_ok());
    assert!(verify_object_hash(b"abd", expected).is_err());
}

#[test]
fn payloads_are_split_into_even_shards() {
    assert_eq!(shard_size(10, 3), 4);
    assert_eq!(shard_size(9, 3), 4);
    assert_eq!(shard_size(13, 3), 6);
    let shards = split_payload(b"0123456789", 3, 4);
    assert_eq!(shards, [b"0123".to_vec(), b"4567".to_vec(), b"89\0\0".to_vec()]);
}

#[test]
fn lost_shards_are_restored() {
    let coder = ErasureCoder::new(&config(2));
    let data: Vec<Vec<u8>> = (0..3u8).map(|i| (0..64).map(|j| i * 64 + j).collect()).collect();
    let all = coder.encode(&data).unwrap();
    assert_eq!(all.len(), 5);
    assert_eq!(all[..3], data[..]);
    for lost in [[0usize, 1], [0, 4], [3, 4], [1, 2]] {
        let mut present = vec![true; 5];
        let mut shards: Vec<Option<Vec<u8>>> = all.iter().cloned().map(Some).collect();
        for i in lost {
            present[i] = false;
            shards[i] = None;
        }
        assert_eq!(coder.decode(&shards, &present).unwrap(), all);
        assert_eq!(reconstruct(3, 2, &shards).unwrap(), all);
    }
    let mut shards: Vec<Option<Vec<u8>>> = all.iter().cloned().map(Some).collect();
    for i in 0..3 {
        shards[i] = None;
    }
    assert!(reconstruct(3, 2, &shards).is_err());
}

#[test]
fn frames_are_decoded_with_padding_behind_them() {
    let mut frame = zstd::encode_all(&b"hello hello hello"[..], 3).unwrap();
    assert_eq!(decode_first_frame(&frame).unwrap(), b"hello hello hello");
    frame.extend_from_slice(&[0u8; 5]);
    assert_eq!(decode_first_frame(&frame).unwrap(), b"hello hello hello");
    assert!(decode_first_frame(b"no frame").is_err());
}

#[test]
fn records_are_read_back() {
    for status in [VersionStatus::Committed, VersionStatus::Pending, VersionStatus::Deleted] {
        let meta = meta(7, status);
        let bytes = serialize_record(&meta).unwrap();
        assert_eq!(bytes[..8], 7u64.to_le_bytes());
        assert_eq!(bytes[8], status.to_u8());
        let read = deserialize_record(&bytes).unwrap();
        assert_eq!(read.version, 7);
        assert_eq!(read.chunk_checksums, meta.chunk_checksums);
        assert_eq!(read.checksum, meta.checksum);
        assert_eq!(read.status, status);
        assert_eq!(read.data_size, meta.data_size);
        assert_eq!(read.last_modified, meta.last_modified);
        assert_eq!(read.metadata.pairs(), meta.metadata.pairs());
        assert_eq!(read.compression_level, Some(3));
        assert_eq!(read.compressed_sizes, meta.compressed_sizes);
        // A record that ends early leaves out what it does not hold.
        let short = deserialize_record(&bytes[..20]).unwrap();
        assert_eq!((short.version, short.checksum, short.data_size), (7, 0, 0));
        assert!(short.chunk_checksums.is_empty());
        assert!(matches!(deserialize_record(&bytes[..8]), Err(StorageError::KvError(_))));
    }
    assert!(VersionStatus::from_u8(9).is_err());
    for byte in 0..3u8 {
        assert_eq!(VersionStatus::from_u8(byte).unwrap().to_u8(), byte);
    }
}

#[test]
fn entries_hold_checksum_length_and_data() {
    let mut out = vec![0u8; 4];
    let checksum = per_chunk_checksum(b"data!");
    put_entry(&mut out, b"data!", checksum);
    assert_eq!(out[4..20], checksum.to_le_bytes());
    assert_eq!(out[20..28], 5u64.to_le_bytes());
    assert_eq!(read_entry(&out, 4).unwrap().unwrap(), b"data!");
    out[30] ^= 1;
    assert!(read_entry(&out, 4).unwrap().is_err());
    assert!(read_entry(&out[..30], 4).is_err());
    assert_eq!(entry_offset(&[29, 40], 0), Some(4));
    assert_eq!(entry_offset(&[29, 40], 2), Some(73));
}

fn mega_file_of(shards: &[&[u8]]) -> Vec<u8> {
    let mut raw = vec![0u8; 4];
    for shard in shards {
        put_entry(&mut raw, shard, per_chunk_checksum(shard));
    }
    raw
}

#[test]
fn an_entry_is_repaired_whatever_of_it_is_damaged() {
    let disk = Disk::new("/d0".to_string(), ClusterId(1));
    let intact = mega_file_of(&[b"first", b"second", b"third"]);
    // The entry of the second shard stands from 33 on, its length from 49 on.
    for at in 33..63 {
        for bits in [1u8, 0x10, 0xFF] {
            let mut raw = intact.clone();
            raw[at] ^= bits;
            assert_eq!(disk.fix_mega_file_entry(&raw, 1, b"second").unwrap(), intact);
        }
    }
    // The last entry may be cut off.
    for end in 87..intact.len() {
        assert_eq!(disk.fix_mega_file_entry(&intact[..end], 2, b"third").unwrap(), intact);
    }
    // A kept entry may not.
    assert_eq!(
        disk.fix_mega_file_entry(&intact[..90], 1, b"second").unwrap_err().message(),
        "transient I/O error: mega-file entry is cut off"
    );
}

#[test]
fn a_repair_goes_by_a_length_that_leads_to_entries() {
    let disk = Disk::new("/d0".to_string(), ClusterId(1));
    let intact = mega_file_of(&[b"first", b"second", b"third"]);
    assert_eq!(
        disk.fix_mega_file_entry(&intact, 1, b"2").unwrap(),
        mega_file_of(&[b"first", b"2", b"third"])
    );
    // A damaged length that ends with the file takes the third entry for a part of the second.
    let mut raw = intact;
    raw[49] = 6 + 29;
    assert_eq!(
        disk.fix_mega_file_entry(&raw, 1, b"second").unwrap(),
        mega_file_of(&[b"first", b"second"])
    );
}

#[test]
fn the_checksum_of_an_object_without_chunks_is_verified() {
    let mut empty = meta(1, VersionStatus::Committed);
    empty.chunk_checksums = Vec::new();
    empty.compressed_sizes = Vec::new();
    empty.data_size = 0;
    empty.checksum = object_hash(b"");
    assert_eq!(ObjectReader::new().finish(&empty).unwrap(), 0);
    empty.checksum ^= 1;
    assert!(matches!(
        ObjectReader::new().finish(&empty),
        Err(StorageError::ChecksumMismatch { .. })
    ));
}

#[test]
fn a_failed_disk_is_not_read() {
    let mut disk = Disk::new("/d0".to_string(), ClusterId(1));
    assert!(disk.read_all_shards(&[0, 0, 0, 0], None, &[]).unwrap().is_empty());
    assert!(matches!(disk.settle_write(false, "busy"), StorageError::Transient(_)));
    assert!(!disk.is_marked_failed());
    let error = disk.settle_write(true, "gone");
    assert_eq!(error.message(), "disk failed: write to /d0 failed: gone");
    assert!(disk.is_marked_failed());
    assert!(matches!(
        disk.read_all_shards(&[0, 0, 0, 0], None, &[]),
        Err(StorageError::DiskFailed(_))
    ));
}

#[test]
fn places_of_objects() {
    let disk = Disk::new("/mnt/disk0".to_string(), ClusterId(1));
    assert_eq!(disk.segments_path("key"), format!("/mnt/disk0/segments/{}", safe_key("key")));
    assert_eq!(disk.segments_path("key"), "/mnt/disk0/segments/key");
    assert_eq!(disk.wip_path("a/b_c"), "/mnt/disk0/wip/a%2Fb_c");
    assert_eq!(safe_key("a/b\\c:d.e%f"), "a%2Fb%5Cc%3Ad%2Ee%25f");
    assert_ne!(safe_key("a/b"), safe_key("a_b"));
    assert_ne!(safe_key("a:b"), safe_key("ab"));
    assert_eq!(version_file_name(3), "v00000003");
    assert_eq!(version_key("a/b", 12), "ver:a/b\u{1f}12");
    assert_eq!(object_key_of("ver:a/b\u{1f}12"), "a/b");
    assert_ne!(version_key("a", 1), version_key("a", 11));
    assert_ne!(counter_key("a"), counter_key("b"));
}

#[test]
fn chunks_are_encoded_and_recovered() {
    let ids: Vec<ClusterId> = (0..3).map(ClusterId).collect();
    let store = ChunkStore::new(&config(1), &ids).unwrap();
    let chunk = store.encode_chunk(b"0123456789").unwrap();
    assert_eq!(chunk.checksum, per_chunk_checksum(b"0123456789"));
    assert_eq!(chunk.shards.len(), 3);
    assert_eq!(chunk.shard_size, 6);
    let mut results: Vec<StorageResult<Vec<u8>>> = chunk.shards.iter().cloned().map(Ok).collect();
    results[1] = Err(StorageError::Transient("gone".to_string()));
    let read = store.recover_chunk(chunk.checksum, 10, false, &results).unwrap();
    assert_eq!(read.corrections, [(1, chunk.shards[1].clone())]);
    results[0] = Err(StorageError::Transient("gone".to_string()));
    assert!(matches!(
        store.recover_chunk(chunk.checksum, 10, false, &results),
        Err(StorageError::TooManyFailures)
    ));
}

#[test]
fn the_latest_committed_version_is_the_highest() {
    let store = ReplicatedMetaStore::new(&config(1)).unwrap();
    let record = |v, s| (v, serialize_record(&meta(v, s)).unwrap());
    let disk = || DiskVersions {
        counter: KvRead::Value(4u64.to_le_bytes().to_vec()),
        records: vec![
            record(1, VersionStatus::Committed),
            record(2, VersionStatus::Committed),
            record(3, VersionStatus::Deleted),
            record(4, VersionStatus::Pending),
        ],
    };
    let disks = vec![disk(), disk(), disk()];
    assert_eq!(store.read_latest_committed("key", &disks).unwrap().version, 2);
}

#[test]
fn parts_of_chunks_in_a_range() {
    assert_eq!(range_part(0, b"0123456789", 2, 5), b"2345");
    assert_eq!(range_part(0, b"0123456789", 8, 100), b"89");
    assert_eq!(range_part(0, b"0123456789", 20, 30), b"");
    assert_eq!(range_part(1, b"0123456789", 3, 67_108_864 + 1), b"01");
}

#[test]
fn errors_are_answered_with_their_status() {
    let text = |s: &str| s.to_string();
    let cases = vec![
        (StorageError::NotFound(text("k")), 404, "NoSuchKey"),
        (StorageError::InvalidRange(text("r")), 500, "InternalError"),
        (StorageError::BucketAlreadyExists(text("b")), 409, "BucketAlreadyExists"),
        (StorageError::BucketNotFound(text("b")), 404, "NoSuchBucket"),
        (StorageError::VersionNotFound { key: text("k"), version: 1 }, 500, "InternalError"),
        (StorageError::VersionConflict, 409, "InternalError"),
        (StorageError::DiskFailed(text("d")), 500, "InternalError"),
        (StorageError::TooManyFailures, 500, "InternalError"),
        (StorageError::Transient(text("bucket 'b' is not empty")), 409, "BucketNotEmpty"),
        (StorageError::Transient(text("busy")), 500, "InternalError"),
        (StorageError::ErasureCoding(text("e")), 500, "InternalError"),
        (StorageError::ChecksumMismatch { expected: 1, actual: 2 }, 500, "InternalError"),
        (StorageError::KvError(text("e")), 500, "InternalError"),
        (StorageError::IoError(text("e")), 500, "InternalError"),
        (StorageError::FjallError(text("e")), 500, "InternalError"),
        (StorageError::ReedSolomonError(text("e")), 500, "InternalError"),
        (StorageError::NoHealthyDisks, 503, "ServiceUnavailable"),
        (StorageError::ReplicationFailed(text("e")), 500, "InternalError"),
        (StorageError::DiskIdNotFound { disk_index: 1 }, 500, "InternalError"),
    ];
    for (error, status, code) in cases {
        let reply = storage_error_to_response(&error);
        assert_eq!((reply.status, reply.code.as_str()), (status, code), "{}", error.message());
    }
    let reply = storage_error_to_response(&StorageError::ChecksumMismatch { expected: 1, actual: 2 });
    assert_eq!(reply.message, "Checksum mismatch: expected 1, got 2");
}

#[test]
fn messages_of_errors() {
    assert_eq!(StorageError::NotFound("k".into()).message(), "object not found: k");
    assert_eq!(
        StorageError::VersionNotFound { key: "k".into(), version: 3 }.message(),
        "version not found: key=k, version=3"
    );
    assert_eq!(
        StorageError::ChecksumMismatch { expected: 1, actual: 2 }.message(),
        "checksum mismatch: expected=1, actual=2"
    );
    assert_eq!(
        StorageError::DiskIdNotFound { disk_index: 2 }.message(),
        "disk 2 not in cluster: no cluster ID found"
    );
    assert_eq!(StorageError::IoError("x".into()).message(), "IO error");
    let copy = StorageError::Transient("busy".into()).clone();
    assert_eq!(copy.message(), "transient I/O error: busy");
}

#[test]
fn names_of_buckets_are_checked() {
    assert_eq!(bucket_name("photos/").unwrap(), "photos");
    assert_eq!(listed_bucket("photos").unwrap(), "photos");
    assert!(matches!(bucket_name("/"), Err(StorageError::BucketNotFound(_))));
    assert!(matches!(listed_bucket("a:b"), Err(StorageError::NotFound(_))));
    assert_eq!(object_key("b", "x/y").unwrap(), "b/x/y");
    match object_key("a/b", "x") {
        Err(StorageError::NotFound(m)) => assert_eq!(m, "Invalid bucket name: a/b"),
        _ => panic!("accepted"),
    }
}

#[test]
fn range_headers_are_parsed() {
    assert!(matches!(parse_range("bytes=0-1023"), Ok((0, 1023))));
    let text = |header: &str| match parse_range(header) {
        Err(StorageError::InvalidRange(m)) => m,
        _ => panic!("accepted {header}"),
    };
    assert_eq!(text("items=0-1"), "unsupported range format: items=0-1");
    assert_eq!(text("bytes=5"), "malformed range: bytes=5");
    assert_eq!(text("bytes=-5"), "invalid range start: ");
    assert_eq!(text("bytes=5-"), "invalid range end: ");
    assert_eq!(text("bytes=1-2-3"), "invalid range end: 2-3");
}

#[test]
fn documents_are_escaped() {
    assert_eq!(
        s3_error_xml("A<B", "x & \"y\""),
        "<?xml version=\"1.0\" encoding=\"UTF-8\"?><Error><Code>A&lt;B</Code>\
         <Message>x &amp; &quot;y&quot;</Message></Error>"
    );
    let buckets = [BucketMeta { name: "b".to_string(), created_at: "t".to_string() }];
    assert_eq!(
        list_buckets_xml(&buckets),
        "<?xml version=\"1.0\" encoding=\"UTF-8\"?>\
         <ListAllMyBucketsResult xmlns=\"http://s3.amazonaws.com/doc/2006-03-01/\">\
         <Owner><ID>self</ID></Owner><Buckets><Bucket><Name>b</Name>\
         <CreationDate>t</CreationDate></Bucket></Buckets></ListAllMyBucketsResult>"
    );
    let contents = [ContentEntry {
        key: "k".to_string(),
        last_modified: "t".to_string(),
        etag: "\"ff\"".to_string(),
        size: 12,
    }];
    let xml = list_objects_xml(&ListXmlParams {
        bucket_name: "b",
        prefix: &Some("p".to_string()),
        marker: &None,
        max_keys: 5,
        is_truncated: true,
        next_marker: &Some("00000001".to_string()),
        contents: &contents,
        common_prefixes: &["p/".to_string()],
    });
    assert_eq!(
        xml,
        "<?xml version=\"1.0\" encoding=\"UTF-8\"?>\
         <ListBucketResult xmlns=\"http://s3.amazonaws.com/doc/2006-03-01/\"><Name>b</Name>\
         <Prefix>p</Prefix><MaxKeys>5</MaxKeys><IsTruncated>true</IsTruncated>\
         <NextMarker>00000001</NextMarker><Contents><Key>k</Key><LastModified>t</LastModified>\
         <ETag>&quot;ff&quot;</ETag><Size>12</Size><StorageClass>STANDARD</StorageClass></Contents>\
         <CommonPrefixes><Prefix>p/</Prefix></CommonPrefixes></ListBucketResult>"
    );
}

#[test]
fn replies_carry_tags_and_dates() {
    assert_eq!(etag(0xff), "\"ff\"");
    assert_eq!(hex_bytes(&[0, 15, 255]), "000fff");
    assert_eq!(http_date("2024-01-02T03:04:05+00:00").unwrap(), "Tue, 02 Jan 2024 03:04:05 GMT");
    assert_eq!(http_date("yesterday"), None);
    let reply = put_object(b"hello", &Ok(12));
    assert_eq!(reply.status, 200);
    assert_eq!(
        reply.headers,
        [
            ("x-amz-version-id".to_string(), "12".to_string()),
            ("etag".to_string(), "\"5d41402abc4b2a76b9719d911017c592\"".to_string()),
            ("content-length".to_string(), "5".to_string()),
        ]
    );
    let meta = meta(1, VersionStatus::Committed);
    let reply = get_object_with_date(&meta, Some((5, 9)), Some("then".to_string()));
    assert_eq!(reply.status, 206);
    assert_eq!(reply.headers[0].1, "5");
    assert_eq!(reply.headers[1].1, "bytes 5-9/70000000");
    assert_eq!(reply.headers[4], ("last-modified".to_string(), "then".to_string()));
    assert_eq!(get_object_with_date(&meta, Some((9, 5)), None).status, 500);
    assert_eq!(get_object_with_date(&meta, Some((0, u64::MAX)), None).status, 500);
    assert_eq!(head_object_with_date(&meta, None).headers.len(), 2);
    assert_eq!(create_bucket(&Ok(())).status, 201);
    assert_eq!(delete_bucket("b", &Ok(())).status, 204);
    let reply = delete_bucket("b", &Err(StorageError::NotFound("bucket 'b'".to_string())));
    assert_eq!(reply.status, 404);
    assert!(reply.body.contains("The specified bucket does not exist: b"));
}

#[test]
fn metadata_keys_are_found_in_any_case() {
    let mut meta = meta(1, VersionStatus::Committed);
    meta.metadata.insert("straße-é".to_string(), "x".to_string());
    let value = get_metadata_value(&Ok(meta), "STRAßE-É").unwrap();
    assert_eq!(value, Some("x".to_string()));
}

#[test]
fn a_creation_time_that_is_no_text_is_read_all_the_same() {
    let store = ReplicatedMetaStore::new(&config(1)).unwrap();
    let bucket = store.read_bucket("b", &Ok(b"a\xFFb".to_vec())).unwrap();
    assert_eq!(bucket.created_at, "a\u{FFFD}b");
    assert_eq!(bucket_exists(&Err(StorageError::NotFound("b".into()))).unwrap(), false);
    assert_eq!(bucket_exists(&Ok(Vec::new())).unwrap(), true);
}

#[test]
fn an_acl_that_is_no_json_is_refused() {
    let mut meta = meta(1, VersionStatus::Committed);
    meta.metadata.insert("x-amz-acl".to_string(), "{ \"b\" : [1,2] }".to_string());
    assert_eq!(get_acl(&Ok(meta.clone())).unwrap().unwrap(), "{\"b\":[1,2]}");
    meta.metadata.insert("x-amz-acl".to_string(), "{".to_string());
    match get_acl(&Ok(meta)) {
        Err(StorageError::KvError(m)) => assert!(m.starts_with("parse ACL: ")),
        _ => panic!("accepted"),
    }
}

#[test]
fn pending_versions_are_noticed() {
    let store = ReplicatedMetaStore::new(&config(1)).unwrap();
    let entry = |version: u64, status| {
        (
            version_key("k", version).into_bytes(),
            store.serialize_meta(&meta(version, status)).unwrap(),
        )
    };
    assert!(!store.has_pending(&[]));
    assert!(!store.has_pending(&[
        entry(1, VersionStatus::Committed),
        entry(2, VersionStatus::Deleted)
    ]));
    assert!(store.has_pending(&[
        entry(1, VersionStatus::Committed),
        entry(2, VersionStatus::Pending)
    ]));
    let (_, pending) = entry(3, VersionStatus::Pending);
    assert!(!store.has_pending(&[(b"ver:k\x1fchunks".to_vec(), pending)]));
    assert!(!store.has_pending(&[(version_key("k", 4).into_bytes(), vec![1, 2])]));
}

#[test]
fn the_store_reads_its_own_records() {
    let store = ReplicatedMetaStore::new(&config(1)).unwrap();
    let written = meta(5, VersionStatus::Committed);
    let bytes = store.serialize_meta(&written).unwrap();
    let read = store.deserialize_meta(&bytes).unwrap();
    assert_eq!(read.version, 5);
    assert_eq!(read.status, VersionStatus::Committed);
    assert_eq!(read.chunk_checksums, written.chunk_checksums);
    assert_eq!(read.metadata.get("color"), Some("b\"lue".to_string()));
    assert!(matches!(store.deserialize_meta(&bytes[..8]), Err(StorageError::KvError(_))));
}

#[test]
fn entries_that_are_cut_off_say_where() {
    let mut raw = Vec::new();
    put_entry(&mut raw, b"data", per_chunk_checksum(b"data"));
    let message = |len: usize| match read_entry(&raw[..len], 0) {
        Err(StorageError::Transient(m)) => m,
        other => panic!("{other:?}"),
    };
    assert_eq!(message(15), "read checksum failed: failed to fill whole buffer");
    assert_eq!(message(23), "read length failed: failed to fill whole buffer");
    assert_eq!(message(27), "read data failed: failed to fill whole buffer");
    assert!(matches!(read_entry(&raw, 0), Ok(Ok(d)) if d == b"data"));
}

#[test]
fn metadata_disks_are_recovered_from_healthy_ones() {
    let mut store = ReplicatedMetaStore::new(&config(1)).unwrap();
    assert_eq!(store.settle_batch(&[true, false, true]).unwrap(), [1]);
    store.settle_repairs(&[]);
    assert_eq!(store.healthy_indexes(), [0, 2]);
    assert_eq!(store.failed_indexes(), [1]);
    // A later batch is tried on the disk that failed before, too.
    assert_eq!(store.settle_batch(&[true, true]).unwrap(), [1]);
    store.settle_repairs(&[]);
    assert_eq!(store.healthy_indexes(), [0, 2]);
    let message = |r: StorageResult<()>| match r {
        Err(StorageError::Transient(m)) => m,
        other => panic!("{other:?}"),
    };
    assert_eq!(message(store.recover_disk(1, 1)), "recovering disk cannot be the source disk");
    assert_eq!(message(store.recover_disk(0, 1)), "source disk 1 is not healthy");
    assert_eq!(message(store.recover_disk(3, 0)), "disk 3 not found");
    assert!(store.recover_disk(1, 0).is_ok());
    store.finish_recovery(1);
    assert_eq!(store.healthy_disk_count(), 3);
}

#[test]
fn the_records_of_an_object_are_told_from_others() {
    let entry = |key: &str, value: u8| (key.as_bytes().to_vec(), vec![value]);
    let entries = [
        entry("ver:a\u{1f}1", 1),
        entry("ver:a\u{1f}07", 2),
        entry("ver:a\u{1f}+8", 3),
        entry("ver:a\u{1f}chunks", 4),
        entry("ver:a\u{1f}b\u{1f}9", 5),
        entry("ver:ab\u{1f}2", 6),
        (b"ver:\xff\x1f3".to_vec(), vec![7]),
        entry("ver:a\u{1f}10", 8),
    ];
    let versions = disk_versions("a", KvRead::Missing, &entries);
    assert_eq!(versions.records, [(1, vec![1]), (10, vec![8])]);
    assert!(matches!(versions.counter, KvRead::Missing));
    let versions = disk_versions("a\u{1f}b", KvRead::Missing, &entries);
    assert_eq!(versions.records, [(9, vec![5])]);
    assert!(disk_versions("\u{fffd}", KvRead::Missing, &entries).records.is_empty());
}

#[test]
fn one_healthy_disk_is_enough_to_read() {
    let mut store = ReplicatedMetaStore::new(&config(1)).unwrap();
    assert_eq!(store.settle_batch(&[false, true, false]).unwrap(), [0, 2]);
    store.settle_repairs(&[]);
    assert!(!store.is_safe());
    assert!(matches!(store.read_from_healthy(&[]), ReadStep::Next(1)));
    let found = store.read_from_healthy(&[KvRead::Value(vec![7])]);
    assert!(matches!(found, ReadStep::Done(Ok(v)) if v == [7]));
    let missing = store.read_from_healthy(&[KvRead::Missing]);
    assert!(matches!(missing, ReadStep::Done(Err(StorageError::NotFound(_)))));
    // Disks that failed stay out of use, whatever they take later.
    assert_eq!(store.failed_indexes(), [0, 2]);
    assert_eq!(store.settle_batch(&[true]).unwrap(), [0, 2]);
    store.settle_repairs(&[0, 2]);
    assert_eq!(store.healthy_indexes(), [1]);
    store.finish_recovery(2);
    // A disk that refused a batch and then took it has all of them.
    assert_eq!(store.settle_batch(&[true, false]).unwrap(), [0, 2]);
    store.settle_repairs(&[0, 2]);
    assert_eq!(store.healthy_indexes(), [1, 2]);
}
