//! Error types for the erasure-coded object storage system.
use crate::text::{decimal_string, join2};
use vstd::prelude::*;

verus! {

use crate::text::decimal;

/// Everything that a storage operation can fail with.
#[allow(inconsistent_fields)]
#[derive(Debug)]
pub enum StorageError {
    NotFound(String),
    InvalidRange(String),
    BucketAlreadyExists(String),
    BucketNotFound(String),
    VersionNotFound { key: String, version: u64 },
    VersionConflict,
    DiskFailed(String),
    TooManyFailures,
    Transient(String),
    ErasureCoding(String),
    ChecksumMismatch { expected: u128, actual: u128 },
    KvError(String),
    IoError(String),
    FjallError(String),
    ReedSolomonError(String),
    NoHealthyDisks,
    ReplicationFailed(String),
    ClusterIdMismatch { disk_index: usize, expected: String, actual: String },
    DiskIdNotFound { disk_index: usize },
}

/// Result type for storage operations.
pub type StorageResult<T> = Result<T, StorageError>;

impl Clone for StorageError {
    fn clone(&self) -> (res: Self)
        ensures
            res == *self,
    {
        match self {
            StorageError::NotFound(s) => StorageError::NotFound(s.clone()),
            StorageError::InvalidRange(s) => StorageError::InvalidRange(s.clone()),
            StorageError::BucketAlreadyExists(s) => StorageError::BucketAlreadyExists(s.clone()),
            StorageError::BucketNotFound(s) => StorageError::BucketNotFound(s.clone()),
            StorageError::VersionNotFound { key, version } => StorageError::VersionNotFound {
                key: key.clone(),
                version: *version,
            },
            StorageError::VersionConflict => StorageError::VersionConflict,
            StorageError::DiskFailed(s) => StorageError::DiskFailed(s.clone()),
            StorageError::TooManyFailures => StorageError::TooManyFailures,
            StorageError::Transient(s) => StorageError::Transient(s.clone()),
            StorageError::ErasureCoding(s) => StorageError::ErasureCoding(s.clone()),
            StorageError::ChecksumMismatch { expected, actual } => StorageError::ChecksumMismatch {
                expected: *expected,
                actual: *actual,
            },
            StorageError::KvError(s) => StorageError::KvError(s.clone()),
            StorageError::IoError(s) => StorageError::IoError(s.clone()),
            StorageError::FjallError(s) => StorageError::FjallError(s.clone()),
            StorageError::ReedSolomonError(s) => StorageError::ReedSolomonError(s.clone()),
            StorageError::NoHealthyDisks => StorageError::NoHealthyDisks,
            StorageError::ReplicationFailed(s) => StorageError::ReplicationFailed(s.clone()),
            StorageError::ClusterIdMismatch { disk_index, expected, actual } => {
                StorageError::ClusterIdMismatch {
                    disk_index: *disk_index,
                    expected: expected.clone(),
                    actual: actual.clone(),
                }
            },
            StorageError::DiskIdNotFound { disk_index } => StorageError::DiskIdNotFound {
                disk_index: *disk_index,
            },
        }
    }
}

impl StorageError {
    /// The message that is shown to a person.
    pub open spec fn text(self) -> Seq<char> {
        match self {
            StorageError::NotFound(s) => "object not found: "@ + s@,
            StorageError::InvalidRange(s) => "invalid byte range: "@ + s@,
            StorageError::BucketAlreadyExists(s) => "bucket already exists: "@ + s@,
            StorageError::BucketNotFound(s) => "bucket not found: "@ + s@,
            StorageError::VersionNotFound { key, version } => "version not found: key="@ + key@
                + ", version="@ + decimal(version as nat),
            StorageError::VersionConflict =>
                "version conflict: another version is already committed"@,
            StorageError::DiskFailed(s) => "disk failed: "@ + s@,
            StorageError::TooManyFailures =>
                "too many disk failures for chunk, cannot recover"@,
            StorageError::Transient(s) => "transient I/O error: "@ + s@,
            StorageError::ErasureCoding(s) => "erasure coding error: "@ + s@,
            StorageError::ChecksumMismatch { expected, actual } => "checksum mismatch: expected="@
                + decimal(expected as nat) + ", actual="@ + decimal(actual as nat),
            StorageError::KvError(s) => "KV store error: "@ + s@,
            StorageError::IoError(s) => "IO error"@,
            StorageError::FjallError(s) => "fjall error: "@ + s@,
            StorageError::ReedSolomonError(s) => "reed-solomon error: "@ + s@,
            StorageError::NoHealthyDisks => "no healthy metadata disks available"@,
            StorageError::ReplicationFailed(s) => "metadata replication failed: "@ + s@,
            StorageError::ClusterIdMismatch { disk_index, expected, actual } =>
                "cluster ID mismatch on disk "@ + decimal(disk_index as nat) + ": expected="@
                + expected@ + ", actual="@ + actual@,
            StorageError::DiskIdNotFound { disk_index } => "disk "@ + decimal(disk_index as nat)
                + " not in cluster: no cluster ID found"@,
        }
    }

    /// The message that is shown to a person.
    pub fn message(&self) -> (res: String)
        ensures
            res@ == self.text(),
    {
        match self {
            StorageError::NotFound(s) => join2("object not found: ", s.as_str()),
            StorageError::InvalidRange(s) => join2("invalid byte range: ", s.as_str()),
            StorageError::BucketAlreadyExists(s) => join2("bucket already exists: ", s.as_str()),
            StorageError::BucketNotFound(s) => join2("bucket not found: ", s.as_str()),
            StorageError::VersionNotFound { key, version } => {
                let mut m = join2("version not found: key=", key.as_str());
                m.append(", version=");
                m.append(decimal_string(*version as u128).as_str());
                m
            },
            StorageError::VersionConflict => {
                "version conflict: another version is already committed".to_owned()
            },
            StorageError::DiskFailed(s) => join2("disk failed: ", s.as_str()),
            StorageError::TooManyFailures => {
                "too many disk failures for chunk, cannot recover".to_owned()
            },
            StorageError::Transient(s) => join2("transient I/O error: ", s.as_str()),
            StorageError::ErasureCoding(s) => join2("erasure coding error: ", s.as_str()),
            StorageError::ChecksumMismatch { expected, actual } => {
                let mut m = join2(
                    "checksum mismatch: expected=",
                    decimal_string(*expected).as_str(),
                );
                m.append(", actual=");
                m.append(decimal_string(*actual).as_str());
                m
            },
            StorageError::KvError(s) => join2("KV store error: ", s.as_str()),
            StorageError::IoError(_) => "IO error".to_owned(),
            StorageError::FjallError(s) => join2("fjall error: ", s.as_str()),
            StorageError::ReedSolomonError(s) => join2("reed-solomon error: ", s.as_str()),
            StorageError::NoHealthyDisks => "no healthy metadata disks available".to_owned(),
            StorageError::ReplicationFailed(s) => join2(
                "metadata replication failed: ",
                s.as_str(),
            ),
            StorageError::ClusterIdMismatch { disk_index, expected, actual } => {
                let mut m = join2(
                    "cluster ID mismatch on disk ",
                    decimal_string(*disk_index as u128).as_str(),
                );
                m.append(": expected=");
                m.append(expected.as_str());
                m.append(", actual=");
                m.append(actual.as_str());
                m
            },
            StorageError::DiskIdNotFound { disk_index } => {
                let mut m = join2("disk ", decimal_string(*disk_index as u128).as_str());
                m.append(" not in cluster: no cluster ID found");
                m
            },
        }
    }
}

} // verus!
