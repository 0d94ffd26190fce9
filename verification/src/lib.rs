//! An erasure-coded, S3-style object store.
pub mod api;
pub mod apis;
pub mod buckets;
pub mod bytes;
pub mod checksum;
pub mod chunk_store;
pub mod clock;
pub mod cluster;
pub mod compression;
pub mod config;
pub mod disk;
pub mod erasure;
pub mod errors;
pub mod fsutil;
pub mod history;
pub mod in_flight;
pub mod key_paths;
pub mod listing;
pub mod metadata;
pub mod metadata_map;
pub mod object_read;
pub mod object_write;
pub mod operations;
pub mod record;
pub mod round_trip;
pub mod scan;
pub mod shards;
pub mod storage_engine;
pub mod text;
pub mod transaction_log;
pub mod versions;
pub mod xml;

pub use api::{ListEntry, ObjectStorage};
pub use config::Config;
pub use disk::{BucketMeta, ChunkStore, Disk, VersionMeta, VersionStatus};
pub use erasure::ErasureCoder;
pub use errors::{StorageError, StorageResult};
pub use metadata::ReplicatedMetaStore;
