//! The store as a whole, with its disks and databases held in memory.
use std::collections::{BTreeMap, HashSet};

use quick_xml::events::Event;
use quick_xml::Reader;
use yotepack::api::{
    fetch_meta, get_metadata_value, get_object_metadata, list, resolve_version, ObjectReader,
    ObjectStorage, RecoveryAction,
};
use yotepack::apis::object_page::{list_objects, list_scan};
use yotepack::apis::s3::{
    bucket_name, create_bucket, delete_bucket, delete_object, error_to_response, get_object,
    head_object, list_buckets, listed_bucket, object_key, parse_range, put_object,
    ListObjectsQuery, Reply,
};
use yotepack::checksum::object_hash;
use yotepack::chunk_store::ChunkStore;
use yotepack::cluster::{scan_disk_cluster_id, ClusterId};
use yotepack::config::Config;
use yotepack::disk::{
    entry_offset, safe_key, version_file_name, BucketMeta, VersionMeta, VersionStatus,
};
use yotepack::errors::{StorageError, StorageResult};
use yotepack::listing::ListEntry;
use yotepack::metadata::{
    bucket_key, counter_key, scan_prefix, version_key, BatchPlan, KvRead, ReadStep,
};
use yotepack::operations::{get_acl, get_cache_control, get_content_type};
use yotepack::versions::{disk_versions, DiskVersions, VersionStep};

/// A store whose disks and databases are maps.
struct Store {
    config: Config,
    storage: ObjectStorage,
    ids: Vec<Option<ClusterId>>,
    databases: Vec<BTreeMap<String, Vec<u8>>>,
    refusing: Vec<bool>,
    files: Vec<BTreeMap<(String, String), Vec<u8>>>,
}

fn make_config(failures: u32, metadata_replicas: usize) -> Config {
    Config {
        disk_paths: (0..failures * 2 + 1).map(|i| format!("/disk_{i}")).collect(),
        disk_failures: failures,
        metadata_replicas,
        disk_uuids: Vec::new(),
        compression_level: None,
    }
}

fn open_storage(
    config: &Config,
    on_disk: &mut [Option<ClusterId>],
) -> StorageResult<ObjectStorage> {
    let expected = ChunkStore::expected_ids(config)?;
    let mut ids: Vec<ClusterId> = Vec::new();
    for (i, found) in on_disk.iter_mut().enumerate() {
        let choice = scan_disk_cluster_id(*found, &expected[i], i, ClusterId::generate())?;
        if choice.write {
            let contents = choice.id.write_to();
            *found = ClusterId::read_from(Some(contents.as_str()), "/disk")?;
        }
        ids.push(choice.id);
    }
    ObjectStorage::new(config.clone(), &ids)
}

impl Store {
    fn with_config(config: Config) -> Store {
        let n = config.disk_paths.len();
        let mut ids = vec![None; n];
        let storage = open_storage(&config, &mut ids).unwrap();
        let replicas = storage.total_meta_disk_count();
        Store {
            config,
            storage,
            ids,
            databases: vec![BTreeMap::new(); replicas],
            refusing: vec![false; replicas],
            files: vec![BTreeMap::new(); n],
        }
    }

    fn new(failures: u32) -> Store {
        Store::with_config(make_config(failures, 0))
    }

    fn reopen(&mut self) {
        self.storage = open_storage(&self.config, &mut self.ids).unwrap();
    }

    fn run(&mut self, plan: BatchPlan) -> StorageResult<()> {
        let mut accepted = Vec::new();
        for target in &plan.targets {
            let ok = !self.refusing[*target];
            if ok {
                self.write_to(*target, &plan);
            }
            accepted.push(ok);
        }
        let again = self.storage.meta_store.settle_batch(&accepted)?;
        let mut repaired = Vec::new();
        for target in again {
            if !self.refusing[target] {
                self.write_to(target, &plan);
                repaired.push(target);
            }
        }
        self.storage.meta_store.settle_repairs(&repaired);
        Ok(())
    }

    fn write_to(&mut self, target: usize, plan: &BatchPlan) {
        for (key, value) in &plan.puts {
            self.databases[target].insert(key.clone(), value.clone());
        }
        for key in &plan.deletes {
            self.databases[target].remove(key);
        }
    }

    fn read_at(&self, disk: usize, key: &str) -> KvRead {
        match self.databases[disk].get(key) {
            Some(value) => KvRead::Value(value.clone()),
            None => KvRead::Missing,
        }
    }

    fn read(&self, key: &str) -> StorageResult<Vec<u8>> {
        let mut outcomes = Vec::new();
        loop {
            match self.storage.meta_store.read_from_healthy(&outcomes) {
                ReadStep::Next(disk) => outcomes.push(self.read_at(disk, key)),
                ReadStep::Done(result) => return result,
            }
        }
    }

    fn entries(&self, disk: usize, prefix: &str) -> Vec<(Vec<u8>, Vec<u8>)> {
        self.databases[disk]
            .iter()
            .filter(|(k, _)| k.starts_with(prefix))
            .map(|(k, v)| (k.clone().into_bytes(), v.clone()))
            .collect()
    }

    fn versions(&self, key: &str) -> Vec<DiskVersions> {
        self.storage
            .meta_store
            .healthy_indexes()
            .into_iter()
            .map(|disk| {
                let counter = self.read_at(disk, &counter_key(key));
                disk_versions(key, counter, &self.entries(disk, &scan_prefix(key)))
            })
            .collect()
    }

    fn read_version(&self, key: &str) -> StorageResult<VersionMeta> {
        self.storage.meta_store.read_version(key, &self.versions(key))
    }

    fn read_latest_version(&self, key: &str) -> StorageResult<u64> {
        self.storage.meta_store.read_latest_version(key, &self.versions(key))
    }

    fn read_version_by_number(&self, key: &str, version: u64) -> StorageResult<VersionMeta> {
        let mut outcomes = Vec::new();
        loop {
            match self.storage.meta_store.read_version_by_number(key, version, &outcomes) {
                VersionStep::Next(disk) => {
                    outcomes.push(self.read_at(disk, &version_key(key, version)))
                }
                VersionStep::Done(result) => return result,
            }
        }
    }

    fn put(&mut self, key: &str, data: &[u8]) -> StorageResult<u64> {
        let version = self.write(key, data)?;
        let promoted = self.promote(key, version);
        let current = self.read_version(key);
        self.storage.put_result(version, promoted, current)
    }

    /// A write that stops before it is promoted.
    fn write(&mut self, key: &str, data: &[u8]) -> StorageResult<u64> {
        let current = self.read(&counter_key(key));
        let (version, plan) = self.storage.meta_store.incr_version_counter(key, &current)?;
        self.run(plan)?;
        let written = self.storage.put(key, version, data)?;
        if !written.meta.chunk_checksums.is_empty() {
            let place = (safe_key(key), version_file_name(version));
            for (disk, handle) in written.handles.into_iter().enumerate() {
                self.files[disk].insert(place.clone(), handle.unwrap().contents);
            }
        }
        let plan = self.storage.meta_store.set_pending(key, &written.meta)?;
        self.run(plan)?;
        Ok(version)
    }

    fn promote(&mut self, key: &str, version: u64) -> StorageResult<()> {
        let value = self.read(&version_key(key, version))?;
        let plan = self.storage.meta_store.promote_version(key, version, &value)?;
        self.run(plan)
    }

    fn fetch(&self, key: &str, token: Option<u64>) -> StorageResult<VersionMeta> {
        let version = resolve_version(token, self.read_latest_version(key))?;
        let meta = if version != 0 {
            self.read_version_by_number(key, version)?
        } else {
            self.read_version(key)?
        };
        Ok(fetch_meta(key, version, meta)?.0)
    }

    fn read_shards(
        &self,
        key: &str,
        meta: &VersionMeta,
        chunk: usize,
    ) -> Vec<StorageResult<Vec<u8>>> {
        let place = (safe_key(key), version_file_name(meta.version));
        let sizes = self.storage.entry_sizes(meta);
        let from = entry_offset(&sizes, chunk).unwrap() as usize;
        let to = entry_offset(&sizes, chunk + 1).unwrap() as usize;
        let entries: Vec<StorageResult<Vec<u8>>> = self
            .files
            .iter()
            .map(|files| match files.get(&place) {
                Some(raw) => Ok(raw[from.min(raw.len())..to.min(raw.len())].to_vec()),
                None => Err(StorageError::Transient("no mega-file".to_string())),
            })
            .collect();
        self.storage.chunk_store.read_chunk(&entries)
    }

    fn apply_corrections(
        &mut self,
        key: &str,
        version: u64,
        chunk: usize,
        corrections: &[(usize, Vec<u8>)],
    ) {
        let place = (safe_key(key), version_file_name(version));
        for (disk, shard) in corrections {
            if let Some(raw) = self.files[*disk].get(&place) {
                let fixed =
                    self.storage.chunk_store.disks[*disk].fix_mega_file_entry(raw, chunk, shard);
                if let Ok(bytes) = fixed {
                    self.files[*disk].insert(place.clone(), bytes);
                }
            }
        }
    }

    fn get(&mut self, key: &str, token: Option<u64>) -> StorageResult<Vec<u8>> {
        let meta = self.fetch(key, token)?;
        let results: Vec<_> =
            (0..meta.chunk_checksums.len()).map(|j| self.read_shards(key, &meta, j)).collect();
        let read = self.storage.get(&meta, &results)?;
        for (chunk, corrections) in read.corrections.iter().enumerate() {
            self.apply_corrections(key, meta.version, chunk, corrections);
        }
        Ok(read.data)
    }

    /// The chunks of an object one by one, and how many there are.
    fn get_stream(&self, key: &str) -> StorageResult<(Vec<u8>, usize)> {
        let meta = self.fetch(key, None)?;
        let mut reader = ObjectReader::new();
        let mut data = Vec::new();
        while reader.next_chunk() < meta.chunk_checksums.len() {
            let shards = self.read_shards(key, &meta, reader.next_chunk());
            let chunk = reader.read_next(&self.storage.chunk_store, &meta, &shards)?;
            data.extend_from_slice(&chunk.data);
        }
        let count = reader.finish(&meta)?;
        Ok((data, count))
    }

    fn get_range(&mut self, key: &str, start: u64, end: u64) -> StorageResult<(Vec<u8>, u64)> {
        let meta = self.fetch(key, None)?;
        let plan = self.storage.plan_range(key, &meta, start, end)?;
        let results: Vec<_> =
            (plan.first..plan.first + plan.count).map(|j| self.read_shards(key, &meta, j)).collect();
        let range = self.storage.get_range(key, &meta, start, end, &results)?;
        for (chunk, corrections) in (plan.first..).zip(&range.corrections) {
            self.apply_corrections(key, meta.version, chunk, corrections);
        }
        Ok((range.data, range.size))
    }

    /// The parts of a byte range, chunk by chunk, and the size of the object.
    fn get_range_stream(&self, key: &str, start: u64, end: u64) -> StorageResult<(Vec<u8>, u64)> {
        let meta = self.fetch(key, None)?;
        let plan = self.storage.plan_range(key, &meta, start, end)?;
        let mut data = Vec::new();
        for chunk in plan.first..plan.first + plan.count {
            let shards = self.read_shards(key, &meta, chunk);
            let part = self.storage.get_range_stream(&meta, chunk, start, end, &shards)?;
            data.extend_from_slice(&part.data);
        }
        Ok((data, plan.size))
    }

    fn delete(&mut self, key: &str) -> StorageResult<()> {
        let latest = self.read_latest_version(key);
        let read = match &latest {
            Ok(version) => self.read(&version_key(key, *version)),
            Err(e) => Err(e.clone()),
        };
        let plan = self.storage.delete(key, latest, &read)?;
        self.run(plan)
    }

    fn scan(&self, prefix: &str, limit: usize) -> StorageResult<Vec<(String, VersionMeta)>> {
        let prefix = scan_prefix(prefix);
        let disks: Vec<Vec<(Vec<u8>, Vec<u8>)>> = self
            .storage
            .meta_store
            .healthy_indexes()
            .into_iter()
            .map(|disk| self.entries(disk, &prefix))
            .collect();
        self.storage.meta_store.scan_versions(limit, &disks)
    }

    fn list(
        &self,
        prefix: &str,
        marker: Option<&str>,
        limit: usize,
    ) -> StorageResult<Vec<ListEntry>> {
        Ok(list(&self.scan(prefix, usize::MAX)?, marker, limit))
    }

    fn garbage_collect(&mut self) -> StorageResult<()> {
        let entries = self.scan("", usize::MAX)?;
        for disk in 0..self.files.len() {
            let places: Vec<(String, String)> = self.files[disk].keys().cloned().collect();
            let garbage = self.storage.garbage_collect(&entries, &places);
            for (place, is_garbage) in places.iter().zip(garbage) {
                if is_garbage {
                    self.files[disk].remove(place);
                }
            }
        }
        Ok(())
    }

    fn recover_on_startup(&mut self) -> StorageResult<()> {
        let entries = self.scan("", usize::MAX)?;
        let complete: Vec<bool> = entries
            .iter()
            .map(|(key, meta)| {
                let key = yotepack::metadata::object_key_of(key);
                let place = (safe_key(&key), version_file_name(meta.version));
                let lens: Vec<Option<u64>> = self
                    .files
                    .iter()
                    .map(|files| files.get(&place).map(|raw| raw.len() as u64))
                    .collect();
                self.storage.is_data_complete(meta, &lens)
            })
            .collect();
        for step in self.storage.recover_on_startup(&entries, &complete) {
            match step.action {
                RecoveryAction::Keep => {}
                RecoveryAction::Promote => self.promote(&step.object_key, step.version)?,
                RecoveryAction::Abandon => {
                    let plan =
                        self.storage.meta_store.delete_pending(&step.object_key, step.version)?;
                    self.run(plan)?;
                }
            }
        }
        self.garbage_collect()
    }

    fn latest_meta(&self, key: &str) -> StorageResult<VersionMeta> {
        let version = self.read_latest_version(key)?;
        self.read_version_by_number(key, version)
    }

    fn set_metadata_value(&mut self, key: &str, name: &str, value: &str) -> StorageResult<()> {
        let read = self.latest_meta(key);
        let plan = self.storage.set_metadata_value(key, &read, name, value)?;
        self.run(plan)
    }

    fn get_metadata_value(&self, key: &str, name: &str) -> StorageResult<Option<String>> {
        get_metadata_value(&self.read_version(key), name)
    }

    fn create_bucket(&mut self, name: &str) -> StorageResult<()> {
        let read = self.read(&bucket_key(name));
        let plan = self.storage.create_bucket(name, &read)?;
        self.run(plan)
    }

    fn delete_bucket(&mut self, name: &str) -> StorageResult<()> {
        let read = self.read(&bucket_key(name));
        let found = self.scan(&self.storage.bucket_prefix(name), usize::MAX);
        let plan = self.storage.delete_bucket(name, &read, &found)?;
        self.run(plan)
    }

    fn buckets(&self) -> StorageResult<Vec<BucketMeta>> {
        let disk = self.storage.meta_store.healthy_indexes()[0];
        Ok(self.storage.meta_store.scan_buckets(&self.entries(disk, &bucket_key(""))))
    }
}

/// The requests of the HTTP interface.
impl Store {
    fn http_create_bucket(&mut self, path: &str) -> Reply {
        match bucket_name(path) {
            Ok(name) => {
                let result = self.create_bucket(&name);
                create_bucket(&result)
            }
            Err(e) => error_to_response(&e),
        }
    }

    fn http_delete_bucket(&mut self, path: &str) -> Reply {
        match bucket_name(path) {
            Ok(name) => {
                let result = self.delete_bucket(&name);
                delete_bucket(&name, &result)
            }
            Err(e) => error_to_response(&e),
        }
    }

    fn http_list_buckets(&self) -> Reply {
        list_buckets(&self.buckets())
    }

    fn http_list(&self, path: &str, params: &ListObjectsQuery) -> Reply {
        match listed_bucket(path) {
            Ok(name) => {
                let wanted = list_scan(&name, params);
                list_objects(&name, params, &self.scan(&wanted.prefix, wanted.limit))
            }
            Err(e) => error_to_response(&e),
        }
    }

    fn http_put(&mut self, bucket: &str, key: &str, data: &[u8]) -> Reply {
        match object_key(bucket, key) {
            Ok(full) => {
                let result = self.put(&full, data);
                put_object(data, &result)
            }
            Err(e) => error_to_response(&e),
        }
    }

    fn http_get(&mut self, bucket: &str, key: &str, range: Option<&str>) -> (Reply, Vec<u8>) {
        let full = match object_key(bucket, key) {
            Ok(full) => full,
            Err(e) => return (error_to_response(&e), Vec::new()),
        };
        match range {
            Some(header) => match parse_range(header) {
                Ok((start, end)) => {
                    let reply = get_object(&self.read_version(&full), Some((start, end)));
                    let data = self.get_range_stream(&full, start, end).map_or(Vec::new(), |r| r.0);
                    (reply, data)
                }
                Err(e) => (error_to_response(&e), Vec::new()),
            },
            None => {
                let reply = get_object(&self.read_version(&full), None);
                let data = self.get(&full, None).unwrap_or_default();
                (reply, data)
            }
        }
    }

    fn http_delete(&mut self, bucket: &str, key: &str) -> Reply {
        match object_key(bucket, key) {
            Ok(full) => {
                let result = self.delete(&full);
                delete_object(&result)
            }
            Err(e) => error_to_response(&e),
        }
    }
}

fn header<'a>(reply: &'a Reply, name: &str) -> Option<&'a str> {
    reply.headers.iter().find(|(n, _)| n == name).map(|(_, v)| v.as_str())
}

fn no_query() -> ListObjectsQuery {
    ListObjectsQuery { prefix: None, delimiter: None, marker: None, max_keys: None }
}

/// The texts in a document, each with the tag that it stands in.
fn xml_tags(xml: &str) -> Vec<(String, String)> {
    let mut reader = Reader::from_str(xml);
    let mut tags = Vec::new();
    let mut buf = Vec::new();
    let mut current_tag: Option<String> = None;
    loop {
        match reader.read_event_into(&mut buf) {
            Ok(Event::Start(e)) | Ok(Event::Empty(e)) => {
                current_tag = Some(String::from_utf8_lossy(e.name().as_ref()).into_owned());
            }
            Ok(Event::Text(t)) => {
                if let Some(ref tag) = current_tag {
                    let text = t.unescape().unwrap_or_default().into_owned();
                    if !text.is_empty() {
                        tags.push((tag.clone(), text));
                    }
                }
            }
            Ok(Event::End(_)) => {
                current_tag = None;
            }
            Ok(Event::Eof) => break,
            _ => {}
        }
        buf.clear();
    }
    tags
}

fn xml_texts(xml: &str, tag: &str) -> Vec<String> {
    xml_tags(xml).into_iter().filter(|(t, _)| t == tag).map(|(_, v)| v).collect()
}

fn xml_count(xml: &str, tag: &str) -> usize {
    xml_texts(xml, tag).len()
}

/// A small generator of numbers.
struct Numbers(u64);

impl Numbers {
    fn next(&mut self) -> u64 {
        self.0 = self.0.wrapping_mul(6364136223846793005).wrapping_add(1442695040888963407);
        self.0 >> 33
    }

    fn below(&mut self, n: u64) -> u64 {
        self.next() % n
    }

    fn data(&mut self, len: usize) -> Vec<u8> {
        (0..len).map(|_| self.next() as u8).collect()
    }
}

fn wait_for_the_clock() {
    let start = std::time::Instant::now();
    while start.elapsed() < std::time::Duration::from_millis(50) {}
}

#[test]
fn smoke_put_get_basic() {
    let mut store = Store::new(1);
    let data = b"Hello, erasure-coded world!";
    let token = store.put("test-key", data).unwrap();
    assert!(token > 0);
    assert_eq!(store.get("test-key", Some(token)).unwrap(), data);
}

#[test]
fn smoke_put_get_multiple_objects() {
    let mut store = Store::new(1);
    let tokens: Vec<u64> = (0..10)
        .map(|i| {
            let data = format!("object-{i}").into_bytes();
            store.put(&format!("key-{i}"), &data).unwrap()
        })
        .collect();
    for (i, token) in tokens.iter().enumerate() {
        let result = store.get(&format!("key-{i}"), Some(*token)).unwrap();
        assert_eq!(result, format!("object-{i}").into_bytes());
    }
}

#[test]
fn smoke_put_get_no_token() {
    let mut store = Store::new(1);
    store.put("key", b"data").unwrap();
    assert_eq!(store.get("key", None).unwrap(), b"data");
}

#[test]
fn smoke_read_latest_version() {
    let mut store = Store::new(1);
    let _v1 = store.put("key", b"v1").unwrap();
    let v2 = store.put("key", b"v2").unwrap();
    assert_eq!(store.read_latest_version("key").unwrap(), v2);
    let meta = store.read_version("key").unwrap();
    assert_eq!(meta.version, v2);
    assert_eq!(meta.status, VersionStatus::Committed);
}

#[test]
fn smoke_version_concurrency() {
    let mut store = Store::new(1);
    let v1 = store.put("key", b"first").unwrap();
    let v2 = store.put("key", b"second").unwrap();
    assert!(v2 > v1);
    assert_eq!(store.get("key", None).unwrap(), b"second");
    assert_eq!(store.get("key", Some(v1)).unwrap(), b"first");
}

#[test]
fn smoke_version_monotonicity() {
    let mut store = Store::new(1);
    let mut prev_version = 0u64;
    for i in 0..5 {
        let data = format!("version-{i}").into_bytes();
        let version = store.put("mono-key", &data).unwrap();
        assert!(version > prev_version, "version {version} should be > {prev_version}");
        prev_version = version;
    }
}

#[test]
fn smoke_delete() {
    let mut store = Store::new(1);
    store.put("key", b"data").unwrap();
    store.delete("key").unwrap();
    let result = store.get("key", None);
    assert!(result.is_err());
    assert!(matches!(result, Err(StorageError::NotFound(_))));
}

#[test]
fn smoke_delete_nonexistent() {
    let mut store = Store::new(1);
    assert!(store.delete("nonexistent").is_err());
}

#[test]
fn smoke_list_basic() {
    let mut store = Store::new(1);
    store.put("obj-a", b"data-a").unwrap();
    store.put("obj-b", b"data-b").unwrap();
    store.put("other", b"data-other").unwrap();
    let entries = store.list("", None, 100).unwrap();
    assert_eq!(entries.len(), 3);
    for entry in &entries {
        assert!(entry.version > 0);
        assert!(entry.size > 0);
        assert!(!entry.key.is_empty());
    }
    let keys: Vec<&str> = entries.iter().map(|e| e.key.as_str()).collect();
    assert_eq!(keys, ["obj-a", "obj-b", "other"]);
}

#[test]
fn smoke_list_prefix_filter() {
    let mut store = Store::new(1);
    store.put("alpha-1", b"data").unwrap();
    store.put("alpha-2", b"data").unwrap();
    store.put("beta-1", b"data").unwrap();
    assert_eq!(store.list("alpha", None, 100).unwrap().len(), 2);
}

#[test]
fn smoke_list_limit() {
    let mut store = Store::new(1);
    for i in 0..10 {
        store.put(&format!("obj-{i}"), b"data").unwrap();
    }
    assert!(store.list("", None, 3).unwrap().len() <= 3);
}

#[test]
fn smoke_large_object() {
    let mut store = Store::new(1);
    let data: Vec<u8> = (0..8192).map(|i| i as u8).collect();
    let token = store.put("large", &data).unwrap();
    assert_eq!(store.get("large", Some(token)).unwrap(), data);
}

#[test]
fn smoke_exact_chunk_boundary() {
    let mut store = Store::new(1);
    let data = vec![42u8; 1024];
    let token = store.put("exact", &data).unwrap();
    assert_eq!(store.get("exact", Some(token)).unwrap(), data);
}

#[test]
fn smoke_just_over_chunk_boundary() {
    let mut store = Store::new(1);
    let data = vec![42u8; 1025];
    let token = store.put("over", &data).unwrap();
    assert_eq!(store.get("over", Some(token)).unwrap(), data);
}

#[test]
fn smoke_meta_disk_count() {
    let store = Store::new(1);
    assert_eq!(store.storage.meta_store.total_disk_count(), 3);
    assert_eq!(store.storage.meta_store.healthy_disk_count(), 3);
    assert!(store.storage.meta_store.is_safe());
}

#[test]
fn smoke_gc_removes_unreferenced() {
    let mut store = Store::new(1);
    store.put("gc-key", b"data").unwrap();
    store.delete("gc-key").unwrap();
    store.garbage_collect().unwrap();
    assert_eq!(store.list("", None, 100).unwrap().len(), 0);
    assert!(store.files.iter().all(|files| files.is_empty()));
}

#[test]
fn smoke_startup_recovery() {
    let mut store = Store::new(1);
    store.put("recover-key", b"recover-data").unwrap();
    store.reopen();
    assert_eq!(store.get("recover-key", None).unwrap(), b"recover-data");
}

fn spoil(store: &mut Store, disk: usize, key: &str, version: u64, change: fn(&mut Vec<u8>)) {
    let place = (safe_key(key), version_file_name(version));
    change(store.files[disk].get_mut(&place).unwrap());
}

#[test]
fn edge_single_shard_bitrot() {
    let mut store = Store::new(1);
    let data: Vec<u8> = (0..4096).map(|i| i as u8).collect();
    let token = store.put("bitrot", &data).unwrap();
    assert_eq!(store.get("bitrot", Some(token)).unwrap(), data);
    let intact = store.files[0].clone();
    spoil(&mut store, 0, "bitrot", token, |raw| {
        let middle = raw.len() / 2;
        raw[middle] ^= 0xFF;
    });
    assert_eq!(store.get("bitrot", Some(token)).unwrap(), data);
    assert_eq!(store.get("bitrot", None).unwrap(), data);
    // The damaged entry was repaired on the way.
    assert_eq!(store.files[0], intact);
}

#[test]
fn sizes_of_chunks_and_entries_are_those_of_shards() {
    let mut store = Store::new(1);
    let token = store.put("sizes", b"0123456789").unwrap();
    let meta = store.fetch("sizes", Some(token)).unwrap();
    // Ten bytes make shards of six, one for each of three disks.
    assert_eq!(meta.compressed_sizes, [18]);
    assert_eq!(store.storage.entry_sizes(&meta), [30]);
    let place = (safe_key("sizes"), version_file_name(token));
    assert_eq!(store.files[0][&place].len(), 4 + 30);
}

#[test]
fn a_damaged_length_is_repaired_on_a_read() {
    let mut store = Store::new(1);
    let token = store.put("length", b"0123456789").unwrap();
    let intact = store.files[0].clone();
    for bits in [1u8, 2, 0x80] {
        let place = (safe_key("length"), version_file_name(token));
        store.files[0].get_mut(&place).unwrap()[20] ^= bits;
        assert_eq!(store.get("length", Some(token)).unwrap(), b"0123456789");
        assert_eq!(store.files[0], intact);
    }
}

#[test]
fn edge_shard_zeroed() {
    let mut store = Store::new(1);
    let data: Vec<u8> = (0..2048).map(|i| (i % 256) as u8).collect();
    let token = store.put("zeroed", &data).unwrap();
    assert_eq!(store.get("zeroed", Some(token)).unwrap(), data);
    spoil(&mut store, 0, "zeroed", token, |raw| {
        let len = raw.len();
        *raw = vec![0u8; len];
    });
    assert_eq!(store.get("zeroed", Some(token)).unwrap(), data);
}

#[test]
fn edge_shard_truncated() {
    let mut store = Store::new(1);
    let data: Vec<u8> = (0..2048).map(|i| i as u8).collect();
    let token = store.put("trunc", &data).unwrap();
    assert_eq!(store.get("trunc", Some(token)).unwrap(), data);
    spoil(&mut store, 0, "trunc", token, |raw| *raw = vec![42u8]);
    assert_eq!(store.get("trunc", Some(token)).unwrap(), data);
}

#[test]
fn edge_shard_missing() {
    let mut store = Store::new(1);
    let data: Vec<u8> = (0..2048).map(|i| i as u8).collect();
    let token = store.put("missing", &data).unwrap();
    assert_eq!(store.get("missing", Some(token)).unwrap(), data);
    store.files[0].remove(&(safe_key("missing"), version_file_name(token)));
    assert_eq!(store.get("missing", Some(token)).unwrap(), data);
}

fn flip_all(raw: &mut Vec<u8>) {
    for byte in raw.iter_mut() {
        *byte = !*byte;
    }
}

#[test]
fn edge_two_shard_failures_recovered() {
    let mut store = Store::new(2);
    let data: Vec<u8> = (0..8192).map(|i| i as u8).collect();
    let token = store.put("two-fail", &data).unwrap();
    assert_eq!(store.get("two-fail", Some(token)).unwrap(), data);
    for disk in 0..2 {
        spoil(&mut store, disk, "two-fail", token, flip_all);
    }
    assert_eq!(store.get("two-fail", Some(token)).unwrap(), data);
}

#[test]
fn edge_three_shard_failures_exceeds_tolerance() {
    let mut store = Store::new(2);
    let data: Vec<u8> = (0..8192).map(|i| i as u8).collect();
    let token = store.put("too-many", &data).unwrap();
    for disk in 0..3 {
        spoil(&mut store, disk, "too-many", token, flip_all);
    }
    let result = store.get("too-many", Some(token));
    assert!(result.is_err(), "expected failure when >M shards are corrupted");
}

#[test]
fn edge_metadata_disk_io_failure() {
    let mut store = Store::new(1);
    let data = b"meta-fail-test";
    let token = store.put("meta-key", data).unwrap();
    assert_eq!(store.get("meta-key", Some(token)).unwrap(), data);
    assert_eq!(store.storage.meta_store.total_disk_count(), 3);
    assert_eq!(store.storage.meta_store.healthy_disk_count(), 3);
    assert!(store.storage.meta_store.is_safe());
}

#[test]
fn edge_pending_version_without_shards() {
    let mut store = Store::new(1);
    store.put("clean", b"data").unwrap();
    store.reopen();
    assert!(store.recover_on_startup().is_ok());
    assert_eq!(store.get("clean", None).unwrap(), b"data");
}

#[test]
fn edge_multiple_pending_versions() {
    let mut store = Store::new(1);
    for i in 0..5 {
        let data = format!("obj-{i}").into_bytes();
        store.put(&format!("key-{i}"), &data).unwrap();
    }
    store.reopen();
    assert!(store.recover_on_startup().is_ok());
    for i in 0..5 {
        let data = format!("obj-{i}").into_bytes();
        assert_eq!(store.get(&format!("key-{i}"), None).unwrap(), data);
    }
}

#[test]
fn edge_gc_after_partial_writes() {
    let mut store = Store::new(1);
    store.put("gc-partial", b"data").unwrap();
    assert!(store.garbage_collect().is_ok());
    assert!(!store.list("", None, 100).unwrap().is_empty());
    assert_eq!(store.get("gc-partial", None).unwrap(), b"data");
}

#[test]
fn edge_gc_empty_store() {
    let mut store = Store::new(1);
    assert!(store.garbage_collect().is_ok());
}

#[test]
fn edge_gc_delete_then_recreate() {
    let mut store = Store::new(1);
    store.put("recreate", b"v1").unwrap();
    store.delete("recreate").unwrap();
    store.garbage_collect().unwrap();
    assert_eq!(store.list("", None, 100).unwrap().len(), 0);
    store.put("recreate", b"v2").unwrap();
    assert_eq!(store.list("", None, 100).unwrap().len(), 1);
    assert_eq!(store.get("recreate", None).unwrap(), b"v2");
}

#[test]
fn edge_rapid_concurrent_writes_same_key() {
    let mut store = Store::new(1);
    let mut last_version = 0u64;
    for i in 0..20 {
        let data = format!("rapid-{i}").into_bytes();
        let version = store.put("rapid-key", &data).unwrap();
        assert!(version > last_version, "v{version} > v{last_version}");
        last_version = version;
        assert_eq!(store.get("rapid-key", Some(version)).unwrap(), data);
    }
    assert_eq!(store.get("rapid-key", None).unwrap(), b"rapid-19");
}

#[test]
fn edge_version_number_stress() {
    let mut store = Store::new(1);
    let mut prev = 0u64;
    for _ in 0..100 {
        let version = store.put("counter-test", b"x").unwrap();
        assert!(version > prev);
        prev = version;
    }
    assert_eq!(store.get("counter-test", None).unwrap(), b"x");
}

#[test]
fn edge_single_byte_object() {
    let mut store = Store::new(1);
    let data = vec![0xFFu8];
    let token = store.put("tiny", &data).unwrap();
    assert_eq!(store.get("tiny", Some(token)).unwrap(), data);
}

#[test]
fn edge_null_byte_object() {
    let mut store = Store::new(1);
    let data: Vec<u8> = (0..256).map(|i| i as u8).collect();
    let token = store.put("all-bytes", &data).unwrap();
    assert_eq!(store.get("all-bytes", Some(token)).unwrap(), data);
}

#[test]
fn edge_repeated_data() {
    let mut store = Store::new(1);
    let data = vec![0xABu8; 4096];
    let token = store.put("repeated", &data).unwrap();
    assert_eq!(store.get("repeated", Some(token)).unwrap(), data);
}

#[test]
fn edge_cluster_id_fresh_generation() {
    let mut store = Store::new(1);
    for (i, disk) in store.storage.chunk_store.disks.iter().enumerate() {
        let contents = store.ids[i].expect("missing cluster id").write_to();
        let parsed = uuid::Uuid::parse_str(contents.trim()).unwrap();
        assert_eq!(parsed.as_u128(), disk.cluster_id.0, "disk {i} cluster ID mismatch");
    }
    store.put("fresh-obj", b"data").unwrap();
    assert_eq!(store.get("fresh-obj", None).unwrap(), b"data");
}

#[test]
fn edge_cluster_id_explicit_config() {
    let mut store = Store::new(1);
    let uuids: Vec<String> =
        store.storage.chunk_store.disks.iter().map(|d| d.cluster_id.text()).collect();
    assert_eq!(uuids.len(), 3);
    store.config.disk_uuids = uuids.clone();
    store.reopen();
    for (i, disk) in store.storage.chunk_store.disks.iter().enumerate() {
        assert_eq!(disk.cluster_id.text(), uuids[i], "disk {i} UUID mismatch after restart");
    }
    for (i, disk) in store.storage.chunk_store.disks.iter().enumerate() {
        let contents = store.ids[i].unwrap().write_to();
        let file_uuid = uuid::Uuid::parse_str(contents.trim()).unwrap();
        assert_eq!(file_uuid.as_u128(), disk.cluster_id.0, "disk {i} on-disk UUID mismatch");
    }
}

#[test]
fn edge_cluster_id_mismatch_rejected() {
    let mut store = Store::new(1);
    let mut uuids: Vec<String> =
        store.storage.chunk_store.disks.iter().map(|d| d.cluster_id.text()).collect();
    uuids[0] = uuid::Uuid::new_v4().to_string();
    store.config.disk_uuids = uuids;
    let result = open_storage(&store.config, &mut store.ids);
    assert!(result.is_err());
    let err = match result {
        Ok(_) => panic!("expected error"),
        Err(e) => e,
    };
    assert!(
        err.message().contains("cluster ID") || err.message().contains("ClusterIdMismatch"),
        "expected ClusterIdMismatch error, got: {}",
        err.message()
    );
    assert!(matches!(err, StorageError::ClusterIdMismatch { disk_index: 0, .. }));
}

#[test]
fn edge_cluster_id_count_mismatch_rejected() {
    let mut config = make_config(1, 0);
    config.disk_uuids = vec![uuid::Uuid::new_v4().to_string()];
    let result = open_storage(&config, &mut [None, None, None]);
    assert!(result.is_err());
    let err = match result {
        Ok(_) => panic!("expected error"),
        Err(e) => e,
    };
    assert!(
        err.message().contains("disk_uuids count") || err.message().contains("total_shards"),
        "expected count mismatch error, got: {}",
        err.message()
    );
}

#[test]
fn test_last_modified_is_set_on_put() {
    let mut store = Store::new(1);
    store.put("key", b"data").unwrap();
    let meta = store.read_version("key").unwrap();
    assert!(!meta.last_modified.is_empty(), "last_modified should be set");
    let parsed = chrono::DateTime::parse_from_rfc3339(&meta.last_modified)
        .expect("last_modified should be valid RFC 3339");
    assert!(
        parsed.offset().to_string().contains("+00:00")
            || parsed.offset().to_string().contains("UTC"),
        "last_modified should be in UTC: {}",
        parsed.offset()
    );
    let now = chrono::Utc::now();
    let diff = (now.naive_utc() - parsed.naive_utc()).num_seconds().unsigned_abs();
    assert!(diff < 10, "last_modified should be recent: diff={diff}s");
}

#[test]
fn test_last_modified_empty_object() {
    let mut store = Store::new(1);
    store.put("empty-key", b"").unwrap();
    let meta = store.read_version("empty-key").unwrap();
    assert!(!meta.last_modified.is_empty(), "last_modified should be set for empty objects");
    let _ = chrono::DateTime::parse_from_rfc3339(&meta.last_modified)
        .expect("last_modified should be valid RFC 3339");
    assert_eq!(store.get("empty-key", None).unwrap(), b"");
}

#[test]
fn test_last_modified_persists() {
    let mut store = Store::new(1);
    store.put("persist-key", b"persist-data").unwrap();
    let time1 = store.read_version("persist-key").unwrap().last_modified;
    store.reopen();
    let meta2 = store.read_version("persist-key").unwrap();
    assert_eq!(time1, meta2.last_modified, "last_modified should persist across restarts");
}

#[test]
fn test_last_modified_new_version_different() {
    let mut store = Store::new(1);
    let v1 = store.put("key", b"v1").unwrap();
    let meta1 = store.read_version("key").unwrap();
    assert_eq!(meta1.version, v1);
    let time1 = meta1.last_modified.clone();
    wait_for_the_clock();
    let v2 = store.put("key", b"v2").unwrap();
    let meta2 = store.read_version("key").unwrap();
    assert_eq!(meta2.version, v2);
    let time2 = meta2.last_modified.clone();
    assert!(
        time2 > time1,
        "newer version should have a later last_modified: v1={time1} v2={time2}"
    );
}

#[test]
fn test_last_modified_updated_on_metadata_change() {
    let mut store = Store::new(1);
    store.put("key", b"data").unwrap();
    let time1 = store.read_version("key").unwrap().last_modified;
    wait_for_the_clock();
    let read = store.latest_meta("key");
    let plan = store.storage.set_content_type("key", &read, "text/plain").unwrap();
    store.run(plan).unwrap();
    let meta2 = store.read_version("key").unwrap();
    let time2 = meta2.last_modified.clone();
    assert!(
        time2 > time1,
        "last_modified should be updated on metadata change: t1={time1} t2={time2}"
    );
    assert_eq!(meta2.metadata.get("content-type").as_deref(), Some("text/plain"));
}

#[test]
fn test_last_modified_in_list_response() {
    let mut store = Store::new(1);
    let keys = vec!["obj-x-a", "obj-x-b"];
    for key in &keys {
        store.put(key, b"data").unwrap();
    }
    assert_eq!(store.list("", None, 100).unwrap().len(), 2);
    for key in &keys {
        let meta = store.read_version(key).unwrap();
        assert!(!meta.last_modified.is_empty(), "last_modified set for {key}");
        assert!(
            chrono::DateTime::parse_from_rfc3339(&meta.last_modified).is_ok(),
            "last_modified is valid RFC 3339 for {key}"
        );
    }
}

#[test]
fn test_last_modified_version_metadata_stored_in_hashmap() {
    let mut store = Store::new(1);
    store.put("key", b"data").unwrap();
    let meta = store.read_version("key").unwrap();
    let stored = meta.metadata.get("last-modified").expect("last-modified should be in metadata");
    assert_eq!(stored, meta.last_modified);
    let _ = chrono::DateTime::parse_from_rfc3339(&stored)
        .expect("metadata last-modified should be valid RFC 3339");
}

#[test]
fn test_last_modified_status_is_committed() {
    let mut store = Store::new(1);
    store.put("key", b"data").unwrap();
    let meta = store.read_version("key").unwrap();
    assert_eq!(meta.status, VersionStatus::Committed);
    assert!(!meta.last_modified.is_empty());
}

#[test]
fn test_put_get() {
    let mut store = Store::new(1);
    let data = b"Hello, erasure-coded world!";
    let token = store.put("test-key", data).unwrap();
    assert_eq!(store.get("test-key", Some(token)).unwrap(), data);
}

#[test]
fn test_put_get_large() {
    let mut store = Store::new(1);
    let data: Vec<u8> = (0..10240).map(|i| (i % 256) as u8).collect();
    let token = store.put("large-key", &data).unwrap();
    assert_eq!(store.get("large-key", Some(token)).unwrap(), data);
}

#[test]
fn test_read_committed() {
    let mut store = Store::new(1);
    let token1 = store.put("key", b"version1").unwrap();
    assert_eq!(store.get("key", None).unwrap(), b"version1");
    let _token2 = store.put("key", b"version2").unwrap();
    assert_eq!(store.get("key", None).unwrap(), b"version2");
    assert_eq!(store.get("key", Some(token1)).unwrap(), b"version1");
}

#[test]
fn test_delete() {
    let mut store = Store::new(1);
    store.put("key", b"data").unwrap();
    store.delete("key").unwrap();
    assert!(store.get("key", None).is_err());
}

#[test]
fn test_list() {
    let mut store = Store::new(1);
    store.put("obj1", b"data1").unwrap();
    store.put("obj2", b"data2").unwrap();
    store.put("other", b"data3").unwrap();
    assert!(store.list("", None, 100).unwrap().len() >= 2);
}

#[test]
fn test_erasure_coding() {
    let mut store = Store::new(1);
    let data: Vec<u8> = (0..4096).map(|i| (i % 256) as u8).collect();
    let token = store.put("multi-chunk", &data).unwrap();
    assert_eq!(store.get("multi-chunk", Some(token)).unwrap(), data);
}

#[test]
fn test_set_get_metadata() {
    let mut store = Store::new(1);
    store.put("key", b"data").unwrap();
    store.set_metadata_value("key", "content-type", "text/plain").unwrap();
    let value = store.get_metadata_value("key", "content-type").unwrap();
    assert_eq!(value, Some("text/plain".to_string()));
    assert_eq!(store.get("key", None).unwrap(), b"data");
}

#[test]
fn test_metadata_content_type() {
    let mut store = Store::new(1);
    store.put("img.png", b"image data").unwrap();
    let read = store.latest_meta("img.png");
    let plan = store.storage.set_content_type("img.png", &read, "image/png").unwrap();
    store.run(plan).unwrap();
    let ct = get_content_type(&store.read_version("img.png")).unwrap();
    assert_eq!(ct, Some("image/png".to_string()));
    assert_eq!(get_content_type(&store.read_version("nonexistent")).unwrap(), None);
}

#[test]
fn test_metadata_cache_control() {
    let mut store = Store::new(1);
    store.put("file.txt", b"text data").unwrap();
    let read = store.latest_meta("file.txt");
    let plan = store.storage.set_cache_control("file.txt", &read, "max-age=3600").unwrap();
    store.run(plan).unwrap();
    let cc = get_cache_control(&store.read_version("file.txt")).unwrap();
    assert_eq!(cc, Some("max-age=3600".to_string()));
}

#[test]
fn test_metadata_acl() {
    let mut store = Store::new(1);
    store.put("private.txt", b"secret").unwrap();
    let acl: serde_json::Value = serde_json::from_str(
        "{ \"grants\": [{\"user\": \"admin\", \"permission\": \"WRITE\"}]}",
    )
    .unwrap();
    let read = store.latest_meta("private.txt");
    let plan = store.storage.set_acl("private.txt", &read, &acl.to_string()).unwrap();
    store.run(plan).unwrap();
    let retrieved_acl = get_acl(&store.read_version("private.txt")).unwrap();
    assert!(retrieved_acl.is_some());
    let value: serde_json::Value = serde_json::from_str(&retrieved_acl.unwrap()).unwrap();
    assert_eq!(value, acl);
    assert_eq!(get_acl(&store.read_version("nonexistent")).unwrap(), None);
}

#[test]
fn test_metadata_case_insensitive() {
    let mut store = Store::new(1);
    store.put("key", b"data").unwrap();
    store.set_metadata_value("key", "Content-Type", "application/json").unwrap();
    let val1 = store.get_metadata_value("key", "content-type").unwrap();
    assert_eq!(val1, Some("application/json".to_string()));
    let val2 = store.get_metadata_value("key", "CONTENT-TYPE").unwrap();
    assert_eq!(val2, Some("application/json".to_string()));
}

#[test]
fn test_metadata_persists_with_data() {
    let mut store = Store::new(1);
    store.put("key", b"data").unwrap();
    store.set_metadata_value("key", "custom", "value123").unwrap();
    assert_eq!(store.get("key", None).unwrap(), b"data");
    let value = store.get_metadata_value("key", "custom").unwrap();
    assert_eq!(value, Some("value123".to_string()));
    assert!(!store.list("", None, 100).unwrap().is_empty());
}

#[test]
fn prop_read_after_write() {
    let mut numbers = Numbers(1);
    for _ in 0..40 {
        let len = 1 + numbers.below(4095) as usize;
        let data = numbers.data(len);
        let mut store = Store::new(1);
        let key = "rainw-key";
        let token = store.put(key, &data).unwrap();
        assert!(token > 0);
        assert_eq!(store.get(key, Some(token)).unwrap(), data);
    }
}

fn any_key(numbers: &mut Numbers) -> String {
    let letters = b"abcdefghijklmnopqrstuvwxyz0123456789";
    let len = 4 + numbers.below(4);
    (0..len).map(|_| letters[numbers.below(36) as usize] as char).collect()
}

#[test]
fn prop_read_after_write_many_keys() {
    let mut numbers = Numbers(2);
    for _ in 0..10 {
        let count = 1 + numbers.below(19);
        let keys: Vec<String> = (0..count).map(|_| any_key(&mut numbers)).collect();
        let mut store = Store::new(1);
        let tokens: Vec<u64> = keys
            .iter()
            .enumerate()
            .map(|(i, k)| store.put(k, &format!("data-{i}").into_bytes()).unwrap())
            .collect();
        for (i, (k, token)) in keys.iter().zip(tokens.iter()).enumerate() {
            let data = format!("data-{i}").into_bytes();
            assert_eq!(store.get(k, Some(*token)).unwrap(), data, "key={k}");
        }
    }
}

#[test]
fn prop_version_monotonicity() {
    for count in [1usize, 2, 17, 49] {
        let mut store = Store::new(1);
        let mut prev_version = 0u64;
        for _i in 0..count {
            let data = vec![prev_version as u8; 64];
            let version = store.put("mono-key", &data).unwrap();
            assert!(version > prev_version, "version {version} should be > {prev_version}");
            prev_version = version;
        }
    }
}

/// The numbers of the mega-files, each with its directory.
fn stored(store: &Store) -> HashSet<(String, String)> {
    store.files.iter().flat_map(|files| files.keys().cloned()).collect()
}

#[test]
fn prop_no_ghost_data() {
    for count in [1usize, 7, 29] {
        let mut store = Store::new(1);
        let mut written: HashSet<(String, String)> = HashSet::new();
        for i in 0..count {
            let data = vec![i as u8; 64 + (i % 10) * 64];
            let key = format!("ghost-{i}");
            let token = store.put(&key, &data).unwrap();
            written.insert((safe_key(&key), version_file_name(token)));
        }
        for place in stored(&store) {
            assert!(written.contains(&place), "{place:?} is not referenced (ghost data)");
        }
        let entries: Vec<(Vec<u8>, Vec<u8>)> = store.databases[0]
            .iter()
            .filter(|(k, _)| k.starts_with("chk:"))
            .map(|(k, v)| (k.clone().into_bytes(), v.clone()))
            .collect();
        assert!(store.storage.meta_store.scan_chunks(&entries).is_empty());
    }
}

#[test]
fn prop_checksum_consistency() {
    let mut store = Store::new(1);
    for i in 0..19usize {
        let data: Vec<u8> = (0..(64 + i * 32)).map(|j| ((i * 7 + j * 13) % 256) as u8).collect();
        let key = format!("cksum-{i}");
        let token = store.put(&key, &data).unwrap();
        let meta = store.read_version_by_number(&key, token).unwrap();
        let result = store.get(&key, Some(token)).unwrap();
        assert_eq!(result, data, "data mismatch for cksum-{i}");
        assert_eq!(meta.checksum, object_hash(&result), "checksum mismatch for cksum-{i}");
        assert_eq!(meta.chunk_checksums, [xxhash_rust::xxh3::xxh3_128(&result)]);
    }
}

#[test]
fn prop_no_ghost_data_after_gc() {
    for count in [5usize, 19] {
        let mut store = Store::new(1);
        for i in 0..count {
            let key = format!("gc-ghost-{i}");
            store.put(&key, &vec![i as u8; 64]).unwrap();
            store.delete(&key).unwrap();
        }
        store.garbage_collect().unwrap();
        assert!(stored(&store).is_empty(), "found {} ghost files after GC", stored(&store).len());
    }
}

#[test]
fn prop_version_conflict_resolved() {
    for count in [1usize, 2, 29] {
        let mut store = Store::new(1);
        let mut versions: Vec<u64> = Vec::new();
        for i in 0..count {
            let data = format!("v{i}").into_bytes();
            match store.put("conflict-key", &data) {
                Ok(token) => versions.push(token),
                Err(StorageError::VersionConflict) => {
                    let meta = store.read_version("conflict-key").unwrap();
                    assert!(meta.version > 0 && meta.status == VersionStatus::Committed);
                    assert!(!store.get("conflict-key", None).unwrap().is_empty());
                    break;
                }
                Err(e) => panic!("unexpected error: {}", e.message()),
            }
        }
        assert!(!versions.is_empty());
        assert!(store.read_latest_version("conflict-key").unwrap() > 0);
        let latest_meta = store.read_version("conflict-key").unwrap();
        assert_eq!(latest_meta.status, VersionStatus::Committed);
    }
}

#[test]
fn prop_list_consistency() {
    for count in [1usize, 12, 29] {
        let mut store = Store::new(1);
        let mut objects: Vec<(String, u64)> = Vec::new();
        for i in 0..count {
            let data = vec![i as u8; 32 + (i % 5) * 32];
            let key = format!("list-key-{i}");
            let token = store.put(&key, &data).unwrap();
            objects.push((key, token));
        }
        let entries = store.list("", None, 100).unwrap();
        for entry in &entries {
            assert!(entry.version > 0, "list entry has version 0: {entry:?}");
            assert!(entry.size > 0, "list entry has size 0: {entry:?}");
        }
        assert_eq!(entries.len(), count);
        for (key, token) in &objects {
            assert!(!store.get(key, Some(*token)).unwrap().is_empty());
        }
    }
}

#[test]
fn prop_read_your_writes_multiple_versions() {
    for versions in [1usize, 6, 19] {
        let mut store = Store::new(1);
        let mut tokens: Vec<u64> = Vec::new();
        for i in 0..versions {
            let data = format!("v{i}").into_bytes();
            let token = store.put("multi-v", &data).unwrap();
            tokens.push(token);
            let result = store.get("multi-v", Some(token)).unwrap();
            assert_eq!(result, data, "read-your-writes failed at version {i}");
        }
        for (i, token) in tokens.iter().enumerate() {
            let data = format!("v{i}").into_bytes();
            let result = store.get("multi-v", Some(*token)).unwrap();
            assert_eq!(result, data, "re-read of version {i} failed");
        }
    }
}

#[test]
fn prop_read_after_write_multi_chunk() {
    for size in [2048, 2049, 4097, 8191] {
        let mut store = Store::new(1);
        let data: Vec<u8> = (0..size).map(|i| (i % 256) as u8).collect();
        let token = store.put("multi-chunk-key", &data).unwrap();
        assert_eq!(store.get("multi-chunk-key", Some(token)).unwrap(), data);
        assert_eq!(store.get("multi-chunk-key", None).unwrap(), data);
    }
}

#[test]
fn prop_crud_lifecycle() {
    for count in [5usize, 14, 29] {
        let mut store = Store::new(1);
        let mut objects: Vec<(String, u64)> = Vec::new();
        for i in 0..count {
            let key = format!("crud-{i}");
            let data = vec![i as u8; 32];
            let token = store.put(&key, &data).unwrap();
            objects.push((key.clone(), token));
            assert_eq!(store.get(&key, Some(token)).unwrap(), data);
            assert_eq!(store.get(&key, None).unwrap(), data);
            let entries = store.list("", None, 100).unwrap();
            assert_eq!(entries.len(), i + 1, "LIST should have {} entries", i + 1);
        }
        let to_delete: Vec<String> =
            objects.iter().take(count / 2).map(|(k, _)| k.clone()).collect();
        for key in &to_delete {
            store.delete(key).unwrap();
            assert!(store.get(key, None).is_err());
        }
        let remaining = count - to_delete.len();
        assert_eq!(store.list("", None, 100).unwrap().len(), remaining);
        for (key, token) in objects.iter().skip(remaining) {
            assert!(!store.get(key, Some(*token)).unwrap().is_empty());
        }
    }
}

#[test]
fn prop_random_operation_sequence() {
    let mut numbers = Numbers(3);
    for _ in 0..10 {
        let mut store = Store::new(1);
        for _ in 0..1 + numbers.below(49) {
            let len = 2 + numbers.below(4) as usize;
            let key: String = (0..len).map(|_| (numbers.next() as u8) as char).collect();
            match numbers.below(3) {
                0 => {
                    let len = 1 + numbers.below(40) as usize;
                    let data = numbers.data(len);
                    let _ = store.put(&key, &data);
                }
                1 => {
                    let token = numbers.below(256);
                    let _ = store.get(&key, if token > 0 { Some(token) } else { None });
                }
                _ => {
                    let _ = store.delete(&key);
                }
            }
        }
        for entry in &store.list("", None, 100).unwrap() {
            assert!(entry.version > 0, "list entry has version 0: {entry:?}");
            assert!(entry.size > 0, "list entry has size 0: {entry:?}");
        }
    }
}

#[test]
fn test_put_object() {
    let mut store = Store::new(1);
    let reply = store.http_put("mybucket", "test.txt", b"Hello, S3 world!");
    assert_eq!(reply.status, 200);
    assert!(header(&reply, "etag").is_some());
    assert!(header(&reply, "content-length").is_some());
    assert!(header(&reply, "x-amz-version-id").is_some());
    assert_eq!(header(&reply, "content-length").unwrap(), "16");
}

#[test]
fn test_get_object() {
    let mut store = Store::new(1);
    let data = b"test data for retrieval";
    assert_eq!(store.http_put("mybucket", "retrieval.txt", data).status, 200);
    let (reply, body) = store.http_get("mybucket", "retrieval.txt", None);
    assert_eq!(reply.status, 200);
    assert!(header(&reply, "etag").is_some());
    assert_eq!(header(&reply, "content-length").unwrap(), "23");
    assert_eq!(body, data);
}

#[test]
fn test_get_nonexistent_object() {
    let mut store = Store::new(1);
    assert_eq!(store.http_get("mybucket", "nonexistent.txt", None).0.status, 404);
}

#[test]
fn test_put_large_object() {
    let mut store = Store::new(1);
    let data: Vec<u8> = (0..4096u16).map(|i| (i % 256) as u8).collect();
    assert_eq!(store.http_put("mybucket", "large.bin", &data).status, 200);
    let (reply, body) = store.http_get("mybucket", "large.bin", None);
    assert_eq!(reply.status, 200);
    assert_eq!(body, data);
}

#[test]
fn test_delete_object() {
    let mut store = Store::new(1);
    store.http_put("mybucket", "delete-test.txt", b"to be deleted");
    assert_eq!(store.http_get("mybucket", "delete-test.txt", None).0.status, 200);
    assert_eq!(store.http_delete("mybucket", "delete-test.txt").status, 204);
    assert_eq!(store.http_get("mybucket", "delete-test.txt", None).0.status, 404);
}

#[test]
fn test_list_objects_empty() {
    let store = Store::new(1);
    let reply = store.http_list("emptybucket", &no_query());
    assert_eq!(reply.status, 200);
    assert!(reply.body.contains("<Name>emptybucket</Name>"));
    assert_eq!(xml_count(&reply.body, "Key"), 0);
}

#[test]
fn test_list_objects_after_puts() {
    let mut store = Store::new(1);
    let bodies = vec![
        ("dir1/file1.txt", b"hello world".as_slice()),
        ("dir1/file2.txt", b"foo bar baz".as_slice()),
        ("dir2/file3.txt", b"qux".as_slice()),
        ("root.txt", b"root content".as_slice()),
    ];
    for (key, data) in &bodies {
        store.http_put("mybucket", key, data);
    }
    let reply = store.http_list("mybucket", &no_query());
    assert_eq!(reply.status, 200);
    assert!(reply.body.contains("<Name>mybucket</Name>"));
    assert_eq!(xml_count(&reply.body, "Key"), 4);
}

#[test]
fn test_list_objects_with_prefix() {
    let mut store = Store::new(1);
    let bodies = vec![
        ("alpha/a1.txt", b"a1".as_slice()),
        ("alpha/a2.txt", b"a2".as_slice()),
        ("beta/b1.txt", b"b1".as_slice()),
        ("beta/b2.txt", b"b2".as_slice()),
    ];
    for (key, data) in &bodies {
        store.http_put("testbucket", key, data);
    }
    let params = ListObjectsQuery { prefix: Some("alpha/".to_string()), ..no_query() };
    let reply = store.http_list("testbucket", &params);
    assert_eq!(reply.status, 200);
    assert!(reply.body.contains("<Name>testbucket</Name>"));
    assert_eq!(xml_count(&reply.body, "Key"), 2);
    let keys = xml_texts(&reply.body, "Key");
    assert!(keys.iter().all(|k| k.contains("alpha/")));
}

#[test]
fn test_create_bucket() {
    let mut store = Store::new(1);
    assert_eq!(store.http_create_bucket("newbucket").status, 201);
}

#[test]
fn test_create_bucket_already_exists() {
    let mut store = Store::new(1);
    assert_eq!(store.http_create_bucket("mybucket").status, 201);
    let reply = store.http_create_bucket("mybucket/");
    assert_eq!(reply.status, 409);
    assert_eq!(xml_texts(&reply.body, "Code"), ["BucketAlreadyExists"]);
}

#[test]
fn test_list_buckets_empty() {
    let store = Store::new(1);
    let reply = store.http_list_buckets();
    assert_eq!(reply.status, 200);
    assert_eq!(xml_count(&reply.body, "Name"), 0);
}

#[test]
fn test_list_buckets_with_multiple() {
    let mut store = Store::new(1);
    for name in ["alpha", "beta", "gamma"] {
        assert_eq!(store.http_create_bucket(name).status, 201);
    }
    let reply = store.http_list_buckets();
    assert_eq!(reply.status, 200);
    let names = xml_texts(&reply.body, "Name");
    assert_eq!(names.len(), 3);
    assert_eq!(names[0], "alpha");
    assert_eq!(names[1], "beta");
    assert_eq!(names[2], "gamma");
    assert_eq!(xml_count(&reply.body, "CreationDate"), 3);
}

#[test]
fn test_delete_bucket_empty() {
    let mut store = Store::new(1);
    store.http_create_bucket("empty-bucket");
    assert_eq!(store.http_delete_bucket("empty-bucket").status, 204);
    assert_eq!(xml_count(&store.http_list_buckets().body, "Name"), 0);
}

#[test]
fn test_delete_bucket_not_empty() {
    let mut store = Store::new(1);
    store.http_create_bucket("mybucket");
    store.http_put("mybucket", "file.txt", b"hello");
    let reply = store.http_delete_bucket("mybucket");
    assert_eq!(reply.status, 409);
    assert_eq!(xml_texts(&reply.body, "Code"), ["BucketNotEmpty"]);
}

#[test]
fn test_delete_bucket_not_found() {
    let mut store = Store::new(1);
    let reply = store.http_delete_bucket("nonexistent");
    assert_eq!(reply.status, 404);
    assert_eq!(xml_texts(&reply.body, "Code"), ["NoSuchBucket"]);
}

#[test]
fn test_bucket_isolation() {
    let mut store = Store::new(1);
    for name in ["bucket-a", "bucket-b"] {
        store.http_create_bucket(name);
    }
    store.http_put("bucket-a", "same.txt", b"hello");
    store.http_put("bucket-b", "same.txt", b"world");
    let reply = store.http_list("bucket-a", &no_query());
    assert_eq!(xml_count(&reply.body, "Key"), 1);
    assert!(reply.body.contains("bucket-a"));
    let reply = store.http_list("bucket-b", &no_query());
    assert_eq!(xml_count(&reply.body, "Key"), 1);
    assert!(reply.body.contains("bucket-b"));
    assert_eq!(store.http_get("bucket-a", "same.txt", None).1, b"hello");
    assert_eq!(store.http_get("bucket-b", "same.txt", None).1, b"world");
}

#[test]
fn test_object_keys_with_colons() {
    let mut store = Store::new(1);
    store.http_create_bucket("colonbucket");
    let bodies = vec![
        ("key:with:colons.txt", b"data1".as_slice()),
        ("a:b/c:d.txt", b"data2".as_slice()),
        ("time:12:34:56", b"data3".as_slice()),
    ];
    for (key, data) in &bodies {
        store.http_put("colonbucket", key, data);
    }
    for (key, expected_data) in &bodies {
        let (reply, body) = store.http_get("colonbucket", key, None);
        assert_eq!(reply.status, 200, "Failed to get {key}");
        assert_eq!(&body, expected_data, "Mismatch for {key}");
    }
    let reply = store.http_list("colonbucket", &no_query());
    assert_eq!(reply.status, 200);
    assert_eq!(xml_count(&reply.body, "Key"), 3);
}

#[test]
fn deleting_a_bucket_ignores_buckets_with_a_longer_name() {
    let mut store = Store::new(1);
    store.http_create_bucket("data");
    store.http_create_bucket("database");
    store.http_put("database", "file.txt", b"hello");
    assert_eq!(store.http_delete_bucket("data").status, 204);
}

#[test]
fn a_byte_range_is_served_with_its_headers() {
    let mut store = Store::new(1);
    store.http_put("b", "k", b"0123456789");
    let (reply, body) = store.http_get("b", "k", Some("bytes=2-5"));
    assert_eq!(reply.status, 206);
    assert_eq!(header(&reply, "content-range"), Some("bytes 2-5/10"));
    assert_eq!(header(&reply, "content-length"), Some("4"));
    assert_eq!(header(&reply, "accept-ranges"), Some("bytes"));
    assert_eq!(body, b"2345");
    assert_eq!(store.get_range("b/k", 2, 5).unwrap(), (b"2345".to_vec(), 10));
    assert_eq!(store.get_range("b/k", 9, 9).unwrap(), (b"9".to_vec(), 10));
    assert_eq!(store.http_get("b", "k", Some("bytes=a-5")).0.status, 500);
}

#[test]
fn a_range_outside_of_the_object_is_refused() {
    let mut store = Store::new(1);
    store.put("key", b"0123456789").unwrap();
    let mut text = |start, end| match store.get_range("key", start, end) {
        Err(StorageError::InvalidRange(m)) => m,
        _ => panic!("not refused"),
    };
    assert_eq!(text(10, 11), "range start 10 >= object size 10");
    assert_eq!(text(3, 10), "range end 10 >= object size 10");
    assert_eq!(text(5, 3), "range end 3 < start 5");
}

#[test]
fn an_object_of_several_chunks_is_read_back_in_parts() {
    let mut store = Store::new(1);
    let chunk = 64 * 1024 * 1024;
    let data: Vec<u8> = (0..chunk + 1000).map(|i| (i / 1000 + i) as u8).collect();
    store.put("big", &data).unwrap();
    let meta = store.read_version("big").unwrap();
    assert_eq!(meta.chunk_checksums.len(), 2);
    assert_eq!(meta.data_size, data.len());
    // A byte of the second chunk is damaged on one disk.
    let version = meta.version;
    spoil(&mut store, 1, "big", version, |raw| {
        let last = raw.len() - 1;
        raw[last] ^= 1;
    });
    assert!(store.get("big", None).unwrap() == data);
    let (streamed, count) = store.get_stream("big").unwrap();
    assert!(streamed == data);
    assert_eq!(count, 2);
    let (start, end) = (chunk as u64 - 5, chunk as u64 + 4);
    let expected = data[start as usize..=end as usize].to_vec();
    assert_eq!(store.get_range("big", start, end).unwrap().0, expected);
    assert_eq!(store.get_range_stream("big", start, end).unwrap(), (expected, data.len() as u64));
    assert_eq!(
        store.get_range("big", chunk as u64 + 7, chunk as u64 + 9).unwrap().0,
        data[chunk + 7..=chunk + 9].to_vec()
    );
}

#[test]
fn compressed_objects_are_read_back() {
    let mut config = make_config(1, 0);
    config.compression_level = Some(3);
    let mut store = Store::with_config(config);
    let data = vec![7u8; 100_000];
    let token = store.put("zeros", &data).unwrap();
    let raw = &store.files[0][&(safe_key("zeros"), version_file_name(token))];
    assert_eq!(raw[0], 1);
    assert!(raw.len() < 1000);
    assert_eq!(store.get("zeros", None).unwrap(), data);
    spoil(&mut store, 2, "zeros", token, flip_all);
    assert_eq!(store.get("zeros", None).unwrap(), data);
    let meta = store.read_version("zeros").unwrap();
    assert_eq!(meta.compression_level, Some(3));
    assert_eq!(store.get_range("zeros", 5, 9).unwrap().0, vec![7u8; 5]);
}

#[test]
fn a_write_whose_data_is_there_is_promoted_at_startup() {
    let mut store = Store::new(1);
    let version = store.write("key", b"in flight").unwrap();
    assert!(store.get("key", None).is_err());
    store.reopen();
    store.recover_on_startup().unwrap();
    assert_eq!(store.get("key", Some(version)).unwrap(), b"in flight");
}

#[test]
fn a_write_with_missing_data_is_abandoned_at_startup() {
    let mut store = Store::new(1);
    store.put("key", b"old").unwrap();
    let version = store.write("key", b"half").unwrap();
    store.files[1].remove(&(safe_key("key"), version_file_name(version)));
    store.reopen();
    store.recover_on_startup().unwrap();
    assert!(store.read_version_by_number("key", version).is_err());
    assert!(stored(&store).iter().all(|(_, name)| *name != version_file_name(version)));
    assert_eq!(store.get("key", Some(version - 1)).unwrap(), b"old");
}

#[test]
fn one_healthy_metadata_disk_is_enough_to_read() {
    let mut store = Store::new(1);
    store.refusing[0] = true;
    store.refusing[2] = true;
    store.put("key", b"data").unwrap();
    assert_eq!(store.storage.healthy_meta_disk_count(), 1);
    assert!(!store.storage.is_meta_safe());
    assert_eq!(store.get("key", None).unwrap(), b"data");
    // The disk comes back and is brought up to date.
    store.refusing[0] = false;
    store.storage.recover_meta_disk(0, 1).unwrap();
    store.databases[0] = store.databases[1].clone();
    store.storage.meta_store.finish_recovery(0);
    assert_eq!(store.storage.healthy_meta_disk_count(), 2);
    assert!(store.storage.is_meta_safe());
    assert!(store.storage.recover_meta_disk(0, 2).is_err());
}

#[test]
fn without_a_healthy_metadata_disk_nothing_is_written() {
    let mut store = Store::new(1);
    store.refusing = vec![true; 3];
    assert!(matches!(store.put("key", b"data"), Err(StorageError::NoHealthyDisks)));
    assert!(matches!(store.read_version("key"), Err(StorageError::NoHealthyDisks)));
    let reply = error_to_response(&StorageError::NoHealthyDisks);
    assert_eq!(reply.status, 503);
}

#[test]
fn the_metadata_of_an_object_is_a_map() {
    let mut store = Store::new(1);
    store.put("key", b"data").unwrap();
    store.set_metadata_value("key", "Color", "blue").unwrap();
    let map = get_object_metadata(&store.read_version("key")).unwrap();
    assert_eq!(map.get("color"), Some("blue".to_string()));
    assert_eq!(map.get("Color"), None);
    let none = get_object_metadata(&store.read_version("other")).unwrap();
    assert!(none.pairs().is_empty());
}

#[test]
fn a_head_request_shows_size_tag_and_date() {
    let mut store = Store::new(1);
    store.http_put("b", "k", b"0123456789");
    let reply = head_object(&store.read_version("b/k"));
    assert_eq!(reply.status, 200);
    assert_eq!(header(&reply, "content-length"), Some("10"));
    let tag = format!("\"{:x}\"", object_hash(b"0123456789"));
    assert_eq!(header(&reply, "etag"), Some(tag.as_str()));
    assert!(header(&reply, "last-modified").unwrap().ends_with(" GMT"));
    assert_eq!(head_object(&store.read_version("b/other")).status, 404);
}

#[test]
fn listings_are_cut_off_and_grouped() {
    let mut store = Store::new(1);
    for key in ["a/1", "a/2", "b/1", "top"] {
        store.http_put("bucket", key, b"x");
    }
    let params = ListObjectsQuery { delimiter: Some("/".to_string()), ..no_query() };
    let reply = store.http_list("bucket", &params);
    assert_eq!(xml_texts(&reply.body, "Key"), ["top"]);
    assert_eq!(xml_texts(&reply.body, "Prefix"), ["a/", "b/"]);
    assert_eq!(xml_texts(&reply.body, "IsTruncated"), ["false"]);
    let params = ListObjectsQuery { max_keys: Some(3), ..no_query() };
    let reply = store.http_list("bucket", &params);
    assert_eq!(xml_texts(&reply.body, "Key"), ["a/1", "a/2", "b/1"]);
    assert_eq!(xml_texts(&reply.body, "MaxKeys"), ["3"]);
    assert_eq!(xml_texts(&reply.body, "IsTruncated"), ["true"]);
    assert_eq!(xml_texts(&reply.body, "NextMarker"), ["b/1"]);
    assert_eq!(xml_texts(&reply.body, "Size"), ["1", "1", "1"]);
}

#[test]
fn listings_show_the_latest_version_behind_the_marker() {
    let mut store = Store::new(1);
    store.http_put("bucket", "once", b"x");
    for _ in 0..11 {
        store.http_put("bucket", "often", b"yy");
    }
    let params = ListObjectsQuery { marker: Some("often".to_string()), ..no_query() };
    let reply = store.http_list("bucket", &params);
    assert_eq!(xml_texts(&reply.body, "Key"), ["once"]);
    let params = ListObjectsQuery { marker: Some("once".to_string()), ..no_query() };
    assert_eq!(xml_count(&store.http_list("bucket", &params).body, "Key"), 0);
    let params = ListObjectsQuery { marker: Some("a".to_string()), ..no_query() };
    let reply = store.http_list("bucket", &params);
    assert_eq!(xml_texts(&reply.body, "Key"), ["often", "once"]);
    assert_eq!(xml_texts(&reply.body, "Size"), ["2", "1"]);
}

#[test]
fn the_pages_of_a_listing_show_each_object_once() {
    let mut store = Store::new(1);
    let keys = ["m", "a", "z/1", "c", "z/2", "b", "k"];
    for (n, key) in keys.iter().enumerate() {
        // Some objects have many versions.
        for _ in 0..=3 * (n % 3) {
            store.http_put("bucket", key, b"x");
        }
    }
    store.http_put("bucket", "gone", b"x");
    store.http_delete("bucket", "gone");
    store.http_put("bucket2", "other", b"x");
    for max_keys in 1..=8 {
        let mut shown: Vec<String> = Vec::new();
        let mut marker = None;
        loop {
            let params =
                ListObjectsQuery { marker: marker.clone(), max_keys: Some(max_keys), ..no_query() };
            let body = store.http_list("bucket", &params).body;
            let page = xml_texts(&body, "Key");
            assert!(page.len() <= max_keys as usize);
            shown.extend(page);
            marker = xml_texts(&body, "NextMarker").pop();
            if xml_texts(&body, "IsTruncated") == ["false"] {
                break;
            }
        }
        assert_eq!(shown, ["a", "b", "c", "k", "m", "z/1", "z/2"]);
        assert!(marker.is_none());
    }
}

#[test]
fn common_prefixes_end_with_the_whole_delimiter() {
    let mut store = Store::new(1);
    for key in ["a--1", "a--2", "b-1", "c"] {
        store.http_put("bucket", key, b"x");
    }
    let params = ListObjectsQuery { delimiter: Some("--".to_string()), ..no_query() };
    let reply = store.http_list("bucket", &params);
    assert_eq!(xml_texts(&reply.body, "Key"), ["b-1", "c"]);
    assert_eq!(xml_texts(&reply.body, "Prefix"), ["a--"]);
}

#[test]
fn a_listing_is_not_cut_short_by_old_versions() {
    let mut store = Store::new(1);
    for _ in 0..9 {
        store.put("a", b"x").unwrap();
    }
    store.put("b", b"y").unwrap();
    let listed = store.list("", None, 2).unwrap();
    assert_eq!(listed.iter().map(|e| e.key.as_str()).collect::<Vec<_>>(), ["a", "b"]);
    assert_eq!(listed[0].version, 9);
}

#[test]
fn objects_with_similar_keys_are_kept_apart() {
    let mut store = Store::new(1);
    let keys = ["a/b", "a_b", "a:_b", "a\\b", "a%2Fb", "ab", "a:b", ".", "..", "a.b"];
    for (n, key) in keys.iter().enumerate() {
        assert_eq!(store.put(key, &[n as u8; 5]).unwrap(), 1);
    }
    for (n, key) in keys.iter().enumerate() {
        assert_eq!(store.get(key, Some(1)).unwrap(), [n as u8; 5]);
        assert_eq!(store.get(key, None).unwrap(), [n as u8; 5]);
    }
    // The data of a deleted object goes, that of the others stays.
    store.delete("a_b").unwrap();
    store.garbage_collect().unwrap();
    assert!(store.files.iter().all(|disk| disk.len() == keys.len() - 1));
    assert_eq!(store.get("a/b", None).unwrap(), [0; 5]);
    assert_eq!(store.get("a\\b", None).unwrap(), [3; 5]);
}

#[test]
fn a_bucket_is_empty_when_its_objects_are_deleted() {
    let mut store = Store::new(1);
    store.create_bucket("b").unwrap();
    store.create_bucket("b2").unwrap();
    store.put("b/k", b"x").unwrap();
    store.put("b2/k", b"x").unwrap();
    match store.delete_bucket("b") {
        Err(StorageError::Transient(m)) => assert!(m.contains("not empty")),
        other => panic!("{other:?}"),
    }
    assert_eq!(store.buckets().unwrap().len(), 2);
    store.delete("b/k").unwrap();
    store.delete_bucket("b").unwrap();
    let names: Vec<String> = store.buckets().unwrap().into_iter().map(|b| b.name).collect();
    assert_eq!(names, ["b2"]);
    assert!(matches!(store.delete_bucket("b"), Err(StorageError::NotFound(_))));
}

#[test]
fn a_range_read_repairs_what_it_could_not_read() {
    let mut store = Store::new(1);
    let data: Vec<u8> = (0..4096).map(|i| i as u8).collect();
    let token = store.put("key", &data).unwrap();
    let intact = store.files[1].clone();
    spoil(&mut store, 1, "key", token, |raw| {
        let last = raw.len() - 1;
        raw[last] ^= 1;
    });
    assert!(store.files[1] != intact);
    assert_eq!(store.get_range("key", 10, 19).unwrap(), (data[10..20].to_vec(), 4096));
    assert!(store.files[1] == intact);
}

#[test]
fn a_failed_metadata_disk_is_out_of_use_until_it_is_recovered() {
    let mut store = Store::new(1);
    store.put("before", b"zero").unwrap();
    store.refusing[0] = true;
    store.put("key", b"one").unwrap();
    assert_eq!(store.storage.healthy_meta_disk_count(), 2);
    // The disk is back: the next write is pushed to it, but it lacks the one before.
    store.refusing[0] = false;
    store.put("other", b"two").unwrap();
    assert!(store.databases[0].keys().any(|key| key.contains("other")));
    assert!(store.databases[0] != store.databases[1]);
    assert_eq!(store.storage.meta_store.failed_indexes(), [0]);
    assert_eq!(store.put("key", b"three").unwrap(), 2);
    assert_eq!(store.get("key", None).unwrap(), b"three");
    // Recovery makes it a full copy, without what is there no more.
    store.databases[0].insert("ver:gone\u{1f}1".to_string(), vec![1]);
    store.storage.recover_meta_disk(0, 1).unwrap();
    let source: Vec<(String, Vec<u8>)> =
        store.databases[1].iter().map(|(k, v)| (k.clone(), v.clone())).collect();
    let stale: Vec<String> = store.databases[0].keys().cloned().collect();
    let (clearing, filling) = store.storage.meta_store.recovery_plans(source, stale);
    store.write_to(0, &clearing);
    store.write_to(0, &filling);
    store.storage.meta_store.finish_recovery(0);
    assert!(store.databases[0] == store.databases[1]);
    assert_eq!(store.storage.healthy_meta_disk_count(), 3);
    assert_eq!(store.get("key", None).unwrap(), b"three");
}

#[test]
fn a_new_store_has_the_disks_of_its_configuration() {
    let mut config = make_config(1, 0);
    config.metadata_replicas = 2;
    config.compression_level = Some(3);
    let ids: Vec<ClusterId> = (1..=config.disk_paths.len() as u128).map(ClusterId).collect();
    let paths = config.disk_paths.clone();
    let storage = ObjectStorage::new(config, &ids).unwrap();
    for (n, disk) in storage.chunk_store.disks.iter().enumerate() {
        assert_eq!(disk.path, paths[n]);
        assert_eq!(disk.cluster_id, ids[n]);
        assert!(!disk.is_marked_failed());
    }
    assert_eq!(storage.chunk_store.disks.len(), paths.len());
    assert_eq!(storage.chunk_store.k, paths.len() - 1);
    assert_eq!(storage.chunk_store.compression_level, Some(3));
    assert_eq!(storage.total_meta_disk_count(), 2);
    assert_eq!(storage.healthy_meta_disk_count(), 2);
}

#[test]
fn what_is_told_about_an_object_is_what_was_put() {
    let mut store = Store::new(1);
    for body in [&b""[..], &b"0123456789"[..]] {
        store.http_put("b", "k", body);
        let (reply, data) = store.http_get("b", "k", None);
        let head = head_object(&store.read_version("b/k"));
        assert_eq!(head.status, 200);
        assert!(head.body.is_empty());
        assert_eq!(data, body);
        let size = body.len().to_string();
        assert_eq!(header(&head, "content-length"), Some(size.as_str()));
        assert_eq!(header(&head, "etag"), header(&reply, "etag"));
        let hash = format!("\"{:x}\"", object_hash(body));
        assert_eq!(header(&head, "etag"), Some(hash.as_str()));
    }
}

#[test]
fn deleting_leaves_the_versions_before() {
    let mut store = Store::new(1);
    let first = store.put("key", b"one").unwrap();
    let second = store.put("key", b"two").unwrap();
    store.put("other", b"three").unwrap();
    assert_eq!((first, second), (1, 2));
    store.delete("key").unwrap();
    assert_eq!(store.read_latest_version("key").unwrap(), first);
    assert!(store.get("key", Some(second)).is_err());
    assert_eq!(store.get("key", Some(first)).unwrap(), b"one");
    assert_eq!(store.get("other", None).unwrap(), b"three");
    // The counter has not gone down.
    assert_eq!(store.put("key", b"four").unwrap(), 3);
    assert_eq!(store.get("key", None).unwrap(), b"four");
}

#[test]
fn a_written_version_is_the_latest_and_keeps_its_metadata() {
    let mut store = Store::new(1);
    store.put("key", b"one").unwrap();
    let version = store.write("key", b"two").unwrap();
    assert_eq!(store.read_latest_version("key").unwrap(), 1);
    let pending = store.read_version_by_number("key", version).unwrap();
    assert_eq!(pending.status, VersionStatus::Pending);
    store.promote("key", version).unwrap();
    let latest = store.read_version("key").unwrap();
    assert_eq!(latest.version, version);
    assert_eq!(latest.status, VersionStatus::Committed);
    assert_eq!(latest.checksum, object_hash(b"two"));
    assert_eq!(latest.chunk_checksums, pending.chunk_checksums);
    assert_eq!(latest.compressed_sizes, pending.compressed_sizes);
    assert!(!latest.last_modified.is_empty());
}
