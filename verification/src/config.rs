//! Configuration for the erasure-coded object storage system.
use crate::text::{decimal_string, starts_with, trim};
use vstd::prelude::*;

verus! {

use crate::text::{decimal, trimmed};

/// Configuration of a cluster.
#[derive(Debug, Clone)]
pub struct Config {
    /// Ordered list of disk paths, one per shard slot.
    pub disk_paths: Vec<String>,
    /// Number of tolerable disk failures (M). There are M + 1 data shards, M parity shards and
    /// 2M + 1 shards in all.
    pub disk_failures: u32,
    /// Number of metadata replicas. Zero means all disks.
    pub metadata_replicas: usize,
    /// Expected cluster ids, one per disk slot, or empty for a fresh cluster.
    pub disk_uuids: Vec<String>,
    /// Zstd compression level, if chunks are compressed.
    pub compression_level: Option<i32>,
}

/// The media type prefixes that are known to be compressible.
pub open spec fn compressible_prefixes() -> Seq<Seq<char>> {
    seq![
        "text/"@,
        "application/json"@,
        "application/javascript"@,
        "application/xml"@,
        "application/xhtml"@,
        "application/sql"@,
        "application/csv"@,
        "application/x-yaml"@,
        "application/toml"@,
        "application/xml-external-parsed-entity"@,
        "application/manifest+json"@,
        "application/rtf"@,
        "application/graphql"@,
        "application/x-httpd-php"@,
        "application/x-web-app-manifest+json"@,
        "application/x-sh"@,
        "application/x-shellscript"@,
        "application/x-python"@,
        "application/x-ruby"@,
        "application/ld+json"@,
        "application/atom+json"@,
        "application/hal+json"@,
        "application/vnd.api+json"@,
        "text/html"@,
        "text/css"@,
        "text/plain"@,
        "text/markdown"@,
        "text/xml"@,
        "text/csv"@,
        "text/calendar"@,
        "message/rfc822"@,
    ]
}

/// Whether some compressible prefix starts the media type `mime`.
pub open spec fn is_compressible(mime: Seq<char>) -> bool {
    exists|i: int|
        0 <= i < compressible_prefixes().len() && (#[trigger] compressible_prefixes()[i]).is_prefix_of(
            mime,
        )
}

/// Media types, and prefixes of them, that are known to be compressible. Formats that are
/// already compressed (images, audio, video, archives) are left out.
pub fn compressible_mime_prefixes() -> (v: Vec<&'static str>)
    ensures
        v@.len() == compressible_prefixes().len(),
        forall|i: int| 0 <= i < v@.len() ==> (#[trigger] v@[i])@ == compressible_prefixes()[i],
{
    vec![
        "text/",
        "application/json",
        "application/javascript",
        "application/xml",
        "application/xhtml",
        "application/sql",
        "application/csv",
        "application/x-yaml",
        "application/toml",
        "application/xml-external-parsed-entity",
        "application/manifest+json",
        "application/rtf",
        "application/graphql",
        "application/x-httpd-php",
        "application/x-web-app-manifest+json",
        "application/x-sh",
        "application/x-shellscript",
        "application/x-python",
        "application/x-ruby",
        "application/ld+json",
        "application/atom+json",
        "application/hal+json",
        "application/vnd.api+json",
        "text/html",
        "text/css",
        "text/plain",
        "text/markdown",
        "text/xml",
        "text/csv",
        "text/calendar",
        "message/rfc822",
    ]
}

/// Whether an object with this content type is compressed: a positive level is configured and
/// the content type, without surrounding white space, starts with a compressible prefix.
pub fn should_compress(content_type: Option<&str>, compression_level: Option<i32>) -> (r: bool)
    ensures
        r == (compression_level is Some && compression_level.unwrap() > 0 && content_type is Some
            && is_compressible(trimmed(content_type.unwrap()@))),
{
    let level: i32 = match compression_level {
        Some(l) => l,
        None => {
            return false;
        },
    };
    if level <= 0 {
        return false;
    }
    let mime: String = match content_type {
        Some(ct) => trim(ct),
        None => {
            return false;
        },
    };
    let prefixes = compressible_mime_prefixes();
    let mut i: usize = 0;
    while i < prefixes.len()
        invariant
            i <= prefixes.len(),
            compression_level == Some(level),
            level > 0,
            content_type is Some,
            mime@ == trimmed(content_type.unwrap()@),
            prefixes@.len() == compressible_prefixes().len(),
            forall|j: int|
                0 <= j < prefixes@.len() ==> (#[trigger] prefixes@[j])@
                    == compressible_prefixes()[j],
            forall|j: int|
                0 <= j < i ==> !(#[trigger] compressible_prefixes()[j]).is_prefix_of(mime@),
        decreases prefixes.len() - i,
    {
        let prefix = prefixes[i];
        if starts_with(mime.as_str(), prefix) {
            assert(compressible_prefixes()[i as int].is_prefix_of(mime@));
            return true;
        }
        i += 1;
    }
    false
}

impl Config {
    /// Number of data shards, as a mathematical integer.
    pub open spec fn k(self) -> nat {
        self.disk_failures as nat + 1
    }

    /// Total number of shards, as a mathematical integer.
    pub open spec fn n(self) -> nat {
        2 * self.disk_failures as nat + 1
    }

    /// The message of the first rule that this configuration breaks, if it breaks one.
    pub open spec fn defect(self) -> Option<Seq<char>> {
        if self.disk_paths@.len() != self.n() {
            Some(
                "disk_paths count ("@ + decimal(self.disk_paths@.len())
                    + ") does not match total_shards ("@ + decimal(self.n()) + ")"@,
            )
        } else if self.disk_uuids@.len() != 0 && self.disk_uuids@.len() != self.n() {
            Some(
                "disk_uuids count ("@ + decimal(self.disk_uuids@.len())
                    + ") does not match total_shards ("@ + decimal(self.n()) + ")"@,
            )
        } else {
            None
        }
    }

    /// The configuration with the given disks that tolerates so many failures, with all disks as
    /// metadata replicas and without compression. There is one disk for each shard.
    pub fn with_disks(disk_paths: Vec<String>, disk_failures: u32) -> (r: Result<Self, String>)
        ensures
            r is Ok <==> disk_paths@.len() == 2 * disk_failures as nat + 1,
            r matches Ok(c) ==> c.disk_paths@ == disk_paths@ && c.disk_failures == disk_failures
                && c.metadata_replicas == 0 && c.disk_uuids@.len() == 0 && c.compression_level
                is None,
            r matches Err(m) ==> m@ == "--disk requires "@ + decimal(2 * disk_failures as nat + 1)
                + " paths (for M="@ + decimal(disk_failures as nat) + " failures), got "@ + decimal(
                disk_paths@.len(),
            ),
    {
        let expected: u64 = disk_failures as u64 * 2 + 1;
        if disk_paths.len() as u64 != expected {
            let mut m: String = "--disk requires ".to_owned();
            m.append(decimal_string(expected as u128).as_str());
            m.append(" paths (for M=");
            m.append(decimal_string(disk_failures as u128).as_str());
            m.append(" failures), got ");
            m.append(decimal_string(disk_paths.len() as u128).as_str());
            return Err(m);
        }
        Ok(
            Config {
                disk_paths,
                disk_failures,
                metadata_replicas: 0,
                disk_uuids: Vec::new(),
                compression_level: None,
            },
        )
    }

    /// Returns the number of data shards.
    pub fn data_shards(&self) -> (r: usize)
        requires
            self.disk_failures < usize::MAX,
        ensures
            r == self.k(),
    {
        self.disk_failures as usize + 1
    }

    /// Returns the number of parity shards.
    pub fn parity_shards(&self) -> (r: usize)
        ensures
            r == self.disk_failures,
    {
        self.disk_failures as usize
    }

    /// Returns the total number of shards per chunk.
    pub fn total_shards(&self) -> (r: usize)
        requires
            self.n() <= usize::MAX,
        ensures
            r == self.n(),
    {
        self.data_shards() + self.parity_shards()
    }

    /// Returns the effective number of metadata replicas. Zero configured replicas mean all
    /// disks; more than there are disks mean all disks too.
    pub fn effective_replicas(&self) -> (r: usize)
        requires
            self.n() <= usize::MAX,
        ensures
            r == (if self.metadata_replicas == 0 || self.metadata_replicas >= self.n() {
                self.n()
            } else {
                self.metadata_replicas as nat
            }),
    {
        if self.metadata_replicas == 0 {
            self.total_shards()
        } else {
            let total: usize = self.total_shards();
            if self.metadata_replicas < total {
                self.metadata_replicas
            } else {
                total
            }
        }
    }

    /// Validate that the disk path and cluster id counts match the shard count.
    pub fn validate(&self) -> (r: Result<(), String>)
        requires
            self.n() <= usize::MAX,
        ensures
            r is Ok <==> self.defect() is None,
            r matches Err(m) ==> m@ == self.defect().unwrap(),
    {
        if self.disk_paths.len() != self.total_shards() {
            return Err(
                count_message("disk_paths count (", self.disk_paths.len(), self.total_shards()),
            );
        }
        if self.disk_uuids.len() != 0 && self.disk_uuids.len() != self.total_shards() {
            return Err(
                count_message("disk_uuids count (", self.disk_uuids.len(), self.total_shards()),
            );
        }
        Ok(())
    }
}

fn count_message(what: &str, found: usize, wanted: usize) -> (m: String)
    ensures
        m@ == what@ + decimal(found as nat) + ") does not match total_shards ("@ + decimal(
            wanted as nat,
        ) + ")"@,
{
    let mut m = what.to_owned();
    m.append(decimal_string(found as u128).as_str());
    m.append(") does not match total_shards (");
    m.append(decimal_string(wanted as u128).as_str());
    m.append(")");
    m
}

/// A store has as many disks more than it needs for reading as failures are to be tolerated, and it
/// needs a majority of them.
pub proof fn law_store_tolerates_the_configured_failures(config: Config)
    ensures
        config.n() - config.k() == config.disk_failures,
        2 * config.k() > config.n(),
        config.defect() is None ==> config.disk_paths@.len() == config.k() + config.disk_failures
            && (config.disk_uuids@.len() == 0 || config.disk_uuids@.len()
            == config.disk_paths@.len()),
        config.disk_paths@.len() == config.k() + config.disk_failures && config.disk_uuids@.len()
            == 0 ==> config.defect() is None,
{
}

/// Every kind of text is compressible.
pub proof fn law_texts_are_compressible(mime: Seq<char>)
    requires
        "text/"@.is_prefix_of(mime),
    ensures
        is_compressible(mime),
{
    assert(compressible_prefixes()[0] == "text/"@);
}

/// Images and videos, which are compressed already, are not compressible.
pub proof fn law_images_and_videos_are_not_compressible(mime: Seq<char>)
    requires
        "image/"@.is_prefix_of(mime) || "video/"@.is_prefix_of(mime),
    ensures
        !is_compressible(mime),
{
    reveal_strlit("image/");
    reveal_strlit("video/");
    assert(mime[0] == 'i' || mime[0] == 'v') by {
        if "image/"@.is_prefix_of(mime) {
            assert(mime.subrange(0, 6)[0] == mime[0]);
        } else {
            assert(mime.subrange(0, 6)[0] == mime[0]);
        }
    }
    reveal_strlit("text/");
    reveal_strlit("application/json");
    reveal_strlit("application/javascript");
    reveal_strlit("application/xml");
    reveal_strlit("application/xhtml");
    reveal_strlit("application/sql");
    reveal_strlit("application/csv");
    reveal_strlit("application/x-yaml");
    reveal_strlit("application/toml");
    reveal_strlit("application/xml-external-parsed-entity");
    reveal_strlit("application/manifest+json");
    reveal_strlit("application/rtf");
    reveal_strlit("application/graphql");
    reveal_strlit("application/x-httpd-php");
    reveal_strlit("application/x-web-app-manifest+json");
    reveal_strlit("application/x-sh");
    reveal_strlit("application/x-shellscript");
    reveal_strlit("application/x-python");
    reveal_strlit("application/x-ruby");
    reveal_strlit("application/ld+json");
    reveal_strlit("application/atom+json");
    reveal_strlit("application/hal+json");
    reveal_strlit("application/vnd.api+json");
    reveal_strlit("text/html");
    reveal_strlit("text/css");
    reveal_strlit("text/plain");
    reveal_strlit("text/markdown");
    reveal_strlit("text/xml");
    reveal_strlit("text/csv");
    reveal_strlit("text/calendar");
    reveal_strlit("message/rfc822");
    let prefixes = compressible_prefixes();
    assert forall|i: int| 0 <= i < prefixes.len() implies !(#[trigger] prefixes[i]).is_prefix_of(
        mime,
    ) by {
        let p = prefixes[i];
        assert(p.len() > 0 && (p[0] == 't' || p[0] == 'a' || p[0] == 'm'));
        if p.is_prefix_of(mime) {
            assert(mime.subrange(0, p.len() as int)[0] == mime[0]);
        }
    }
}

} // verus!
