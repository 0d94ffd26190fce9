//! Scans of the metadata store: versions, chunks and buckets.
use crate::bytes::get_le;
use crate::disk::{BucketMeta, VersionMeta, VersionStatus};
use crate::errors::{StorageError, StorageResult};
use crate::metadata::ReplicatedMetaStore;
use crate::record::deserialize_record;
use crate::text::{
    ends_with, same_text, starts_with, strip_prefix, text_before, text_of_bytes,
};
use vstd::prelude::*;

verus! {

use crate::bytes::le_value;
use crate::disk::status_byte;
use crate::metadata::{bucket_key_of, healthy, lemma_decimal_digits, version_key_of};
use crate::record::{is_record, is_record_of, lemma_record_head, record_bytes};
use crate::text::{
    decimal, lemma_text_lt_irreflexive, lemma_text_lt_total, lemma_text_lt_transitive, lossy_text,
    text_lt,
};
use crate::versions::is_record_error;
use vstd::seq_lib::{to_multiset_build, to_multiset_insert};

/// The ending of the keys of chunk lists, which are no version records.
pub const CHUNK_LIST_SUFFIX: &'static str = "\x1fchunks";

/// Whether a key is that of a version record.
pub open spec fn is_version_key(key: Seq<char>) -> bool {
    "ver:"@.is_prefix_of(key) && !CHUNK_LIST_SUFFIX@.is_suffix_of(key)
}

/// Whether `acc` has an entry with the key `key`.
pub open spec fn has_key(acc: Seq<(Seq<char>, Seq<u8>)>, key: Seq<char>) -> bool {
    exists|i: int| 0 <= i < acc.len() && (#[trigger] acc[i]).0 == key
}

/// The entries of a scan after one more: an entry is taken while there are fewer than `limit`, if
/// it has the key of a version record that was not seen before. There is none after an entry that
/// has to be taken and holds no record.
pub open spec fn scan_step(
    acc: Seq<(Seq<char>, Seq<u8>)>,
    limit: nat,
    key: Seq<char>,
    value: Seq<u8>,
) -> Option<Seq<(Seq<char>, Seq<u8>)>> {
    if acc.len() >= limit || !is_version_key(key) || has_key(acc, key) {
        Some(acc)
    } else if !is_record(value) {
        None
    } else {
        Some(acc.push((key, value)))
    }
}

/// The entries of a scan after the first `n` entries of a disk.
pub open spec fn scan_entries(
    acc: Seq<(Seq<char>, Seq<u8>)>,
    limit: nat,
    entries: Seq<(Vec<u8>, Vec<u8>)>,
    n: int,
) -> Option<Seq<(Seq<char>, Seq<u8>)>>
    decreases n,
{
    if n <= 0 {
        Some(acc)
    } else {
        match scan_entries(acc, limit, entries, n - 1) {
            Some(a) => scan_step(a, limit, lossy_text(entries[n - 1].0@), entries[n - 1].1@),
            None => None,
        }
    }
}

/// The entries of a scan after the first `n` disks.
pub open spec fn scan_disks(limit: nat, disks: Seq<Vec<(Vec<u8>, Vec<u8>)>>, n: int) -> Option<
    Seq<(Seq<char>, Seq<u8>)>,
>
    decreases n,
{
    if n <= 0 {
        Some(Seq::empty())
    } else {
        match scan_disks(limit, disks, n - 1) {
            Some(a) => scan_entries(a, limit, disks[n - 1]@, disks[n - 1]@.len() as int),
            None => None,
        }
    }
}

/// Whether entry `j` of disk `i` is the one that ends a scan: it has to be taken and holds no
/// record, and none before it does so.
pub open spec fn is_first_bad_entry(
    limit: nat,
    disks: Seq<Vec<(Vec<u8>, Vec<u8>)>>,
    i: int,
    j: int,
) -> bool {
    0 <= i < disks.len() && 0 <= j < disks[i]@.len() && match scan_disks(limit, disks, i) {
        Some(a) => scan_entries(a, limit, disks[i]@, j) is Some && scan_entries(
            a,
            limit,
            disks[i]@,
            j + 1,
        ) is None,
        None => false,
    }
}

/// Whether `results` is the keys of `acc` with the versions that its records hold.
pub open spec fn are_versions_of(
    acc: Seq<(Seq<char>, Seq<u8>)>,
    results: Seq<(String, VersionMeta)>,
) -> bool {
    acc.len() == results.len() && forall|i: int|
        0 <= i < acc.len() ==> (#[trigger] results[i]).0@ == acc[i].0 && is_record_of(
            acc[i].1,
            results[i].1,
        )
}

/// A scan of version records.
pub struct VersionScan {
    limit: usize,
    results: Vec<(String, VersionMeta)>,
    taken: Ghost<Seq<(Seq<char>, Seq<u8>)>>,
}

impl View for VersionScan {
    type V = Seq<(Seq<char>, Seq<u8>)>;

    /// The keys and records taken so far. They fix the results, as `wf` says; the limit is
    /// `limit`.
    closed spec fn view(&self) -> Seq<(Seq<char>, Seq<u8>)> {
        self.taken@
    }
}

impl VersionScan {
    /// The number of entries to take.
    pub closed spec fn limit(self) -> nat {
        self.limit as nat
    }

    /// The results are the versions of the records taken.
    pub closed spec fn wf(self) -> bool {
        are_versions_of(self.taken@, self.results@)
    }

    /// Start a scan for at most `limit` entries.
    pub fn new(limit: usize) -> (r: Self)
        ensures
            r.wf(),
            r@ == Seq::<(Seq<char>, Seq<u8>)>::empty(),
            r.limit() == limit,
    {
        VersionScan { limit, results: Vec::new(), taken: Ghost(Seq::empty()) }
    }

    /// Look at one more entry.
    pub fn push(&mut self, key_bytes: &[u8], value: &[u8]) -> (r: StorageResult<()>)
        requires
            old(self).wf(),
        ensures
            final(self).wf(),
            final(self).limit() == old(self).limit(),
            r is Ok <==> scan_step(
                old(self)@,
                old(self).limit(),
                lossy_text(key_bytes@),
                value@,
            ) is Some,
            r is Ok ==> scan_step(old(self)@, old(self).limit(), lossy_text(key_bytes@), value@)
                == Some(final(self)@),
            r is Err ==> final(self)@ == old(self)@,
            r matches Err(e) ==> is_record_error(value@, e),
    {
        if self.results.len() >= self.limit {
            return Ok(());
        }
        let key = text_of_bytes(key_bytes);
        if ends_with(key.as_str(), CHUNK_LIST_SUFFIX) || !starts_with(key.as_str(), "ver:") {
            return Ok(());
        }
        let mut i: usize = 0;
        while i < self.results.len()
            invariant
                i <= self.results@.len(),
                *self == *old(self),
                key@ == lossy_text(key_bytes@),
                self.wf(),
                self.taken@.len() == self.results@.len(),
                forall|j: int| 0 <= j < i ==> (#[trigger] self.taken@[j]).0 != key@,
            decreases self.results.len() - i,
        {
            assert(self.results@[i as int].0@ == self.taken@[i as int].0);
            if same_text(self.results[i].0.as_str(), key.as_str()) {
                assert(has_key(self.taken@, key@));
                return Ok(());
            }
            i += 1;
        }
        assert(!has_key(self.taken@, key@));
        match deserialize_record(value) {
            Ok(meta) => {
                let ghost before = self.results@;
                let ghost old_taken = self.taken@;
                self.results.push((key, meta));
                self.taken = Ghost(old_taken.push((key@, value@)));
                proof {
                    assert forall|j: int| 0 <= j < self.taken@.len() implies (
                    #[trigger] self.results@[j]).0@ == self.taken@[j].0 && is_record_of(
                        self.taken@[j].1,
                        self.results@[j].1,
                    ) by {
                        if j < before.len() {
                            assert(before[j].0@ == old_taken[j].0);
                        }
                    }
                }
                Ok(())
            },
            Err(e) => Err(e),
        }
    }

    /// The versions found, each with its key.
    pub fn finish(self) -> (r: Vec<(String, VersionMeta)>)
        requires
            self.wf(),
        ensures
            are_versions_of(self@, r@),
    {
        self.results
    }
}

/// A scan takes no more entries than it is asked for, no key twice, and version records only.
pub open spec fn is_scan_result(acc: Seq<(Seq<char>, Seq<u8>)>, limit: nat) -> bool {
    &&& acc.len() <= limit
    &&& forall|i: int, j: int| 0 <= i < j < acc.len() ==> acc[i].0 != acc[j].0
    &&& forall|i: int|
        0 <= i < acc.len() ==> is_version_key((#[trigger] acc[i]).0) && is_record(acc[i].1)
}

proof fn lemma_scan_step_bounds(
    acc: Seq<(Seq<char>, Seq<u8>)>,
    limit: nat,
    key: Seq<char>,
    value: Seq<u8>,
)
    requires
        is_scan_result(acc, limit),
    ensures
        scan_step(acc, limit, key, value) matches Some(next) ==> is_scan_result(next, limit),
{
    if let Some(next) = scan_step(acc, limit, key, value) {
        if next.len() > acc.len() {
            assert forall|i: int, j: int| 0 <= i < j < next.len() implies next[i].0 != next[j].0 by {
                if j == acc.len() {
                    assert(acc[i].0 != key);
                }
            }
        }
    }
}

proof fn lemma_scan_entries_bounds(
    acc: Seq<(Seq<char>, Seq<u8>)>,
    limit: nat,
    entries: Seq<(Vec<u8>, Vec<u8>)>,
    n: int,
)
    requires
        is_scan_result(acc, limit),
    ensures
        scan_entries(acc, limit, entries, n) matches Some(next) ==> is_scan_result(next, limit),
    decreases n,
{
    if n > 0 {
        lemma_scan_entries_bounds(acc, limit, entries, n - 1);
        if let Some(a) = scan_entries(acc, limit, entries, n - 1) {
            lemma_scan_step_bounds(
                a,
                limit,
                lossy_text(entries[n - 1].0@),
                entries[n - 1].1@,
            );
        }
    }
}

/// A scan of any number of disks has no more entries than asked for, no key twice, and version
/// records only.
pub proof fn law_scan_keeps_its_bounds(
    limit: nat,
    disks: Seq<Vec<(Vec<u8>, Vec<u8>)>>,
    n: int,
)
    ensures
        scan_disks(limit, disks, n) matches Some(acc) ==> is_scan_result(acc, limit),
    decreases n,
{
    if n > 0 {
        law_scan_keeps_its_bounds(limit, disks, n - 1);
        if let Some(a) = scan_disks(limit, disks, n - 1) {
            lemma_scan_entries_bounds(a, limit, disks[n - 1]@, disks[n - 1]@.len() as int);
        }
    }
}

impl ReplicatedMetaStore {
    /// Scan version records: the first `limit` of those that the healthy disks gave, in order.
    pub fn scan_versions(&self, limit: usize, disks: &[Vec<(Vec<u8>, Vec<u8>)>]) -> (r:
        StorageResult<Vec<(String, VersionMeta)>>)
        requires
            disks@.len() == healthy(self@).len(),
        ensures
            r is Ok <==> disks@.len() > 0 && scan_disks(
                limit as nat,
                disks@,
                disks@.len() as int,
            ) is Some,
            r matches Ok(v) ==> are_versions_of(
                scan_disks(limit as nat, disks@, disks@.len() as int).unwrap(),
                v@,
            ),
            r matches Err(e) ==> if disks@.len() == 0 {
                e is NoHealthyDisks
            } else {
                exists|i: int, j: int| #[trigger]
                    is_first_bad_entry(limit as nat, disks@, i, j) && is_record_error(
                        disks@[i]@[j].1@,
                        e,
                    )
            },
    {
        if disks.len() == 0 {
            return Err(StorageError::NoHealthyDisks);
        }
        let mut scan = VersionScan::new(limit);
        let mut i: usize = 0;
        while i < disks.len()
            invariant
                i <= disks@.len(),
                disks@.len() > 0,
                scan.wf(),
                scan.limit() == limit,
                scan_disks(limit as nat, disks@, i as int) == Some(scan@),
            decreases disks.len() - i,
        {
            let entries: &Vec<(Vec<u8>, Vec<u8>)> = &disks[i];
            let ghost start = scan@;
            let mut j: usize = 0;
            while j < entries.len()
                invariant
                    j <= entries@.len(),
                    i < disks@.len(),
                    disks@.len() > 0,
                    entries@ == disks@[i as int]@,
                    scan.wf(),
                    scan.limit() == limit,
                    scan_disks(limit as nat, disks@, i as int) == Some(start),
                    scan_entries(start, limit as nat, entries@, j as int) == Some(scan@),
                decreases entries.len() - j,
            {
                match scan.push(entries[j].0.as_slice(), entries[j].1.as_slice()) {
                    Ok(()) => {},
                    Err(e) => {
                        proof {
                            lemma_scan_entries_none(
                                start,
                                limit as nat,
                                entries@,
                                j + 1,
                                entries@.len() as int,
                            );
                            lemma_scan_disks_none(limit as nat, disks@, i + 1, disks@.len() as int);
                            assert(is_first_bad_entry(limit as nat, disks@, i as int, j as int));
                        }
                        return Err(e);
                    },
                }
                j += 1;
            }
            i += 1;
        }
        Ok(scan.finish())
    }

    /// Whether some entry holds the record of a pending version.
    pub fn has_pending(&self, entries: &[(Vec<u8>, Vec<u8>)]) -> (r: bool)
        ensures
            r == exists|i: int|
                0 <= i < entries@.len() && is_pending_entry(#[trigger] entries@[i]),
    {
        let mut i: usize = 0;
        while i < entries.len()
            invariant
                i <= entries@.len(),
                forall|j: int| 0 <= j < i ==> !is_pending_entry(#[trigger] entries@[j]),
            decreases entries.len() - i,
        {
            let key = text_of_bytes(entries[i].0.as_slice());
            if !ends_with(key.as_str(), CHUNK_LIST_SUFFIX) {
                match deserialize_record(entries[i].1.as_slice()) {
                    Ok(meta) => {
                        if meta.status == VersionStatus::Pending {
                            assert(is_pending_entry(entries@[i as int]));
                            return true;
                        }
                    },
                    Err(_) => {},
                }
            }
            i += 1;
        }
        false
    }

    /// The chunk metadata in the entries of a disk: each key with its checksum.
    pub fn scan_chunks(&self, entries: &[(Vec<u8>, Vec<u8>)]) -> (r: Vec<(String, u128)>)
        requires
            forall|i: int| 0 <= i < entries@.len() ==> (#[trigger] entries@[i]).1@.len() >= 16,
        ensures
            r@.len() == entries@.len(),
            forall|i: int|
                0 <= i < r@.len() ==> (#[trigger] r@[i]).0@ == lossy_text(entries@[i].0@)
                    && r@[i].1 == le_value(entries@[i].1@.subrange(0, 16)),
    {
        let mut r: Vec<(String, u128)> = Vec::new();
        let mut i: usize = 0;
        while i < entries.len()
            invariant
                i <= entries@.len(),
                r@.len() == i,
                forall|j: int|
                    0 <= j < entries@.len() ==> (#[trigger] entries@[j]).1@.len() >= 16,
                forall|j: int|
                    0 <= j < i ==> (#[trigger] r@[j]).0@ == lossy_text(entries@[j].0@) && r@[j].1
                        == le_value(entries@[j].1@.subrange(0, 16)),
            decreases entries.len() - i,
        {
            let key = text_of_bytes(entries[i].0.as_slice());
            assert(entries@[i as int].1@.len() >= 16);
            let cksum: u128 = get_le(entries[i].1.as_slice(), 0, 16);
            r.push((key, cksum));
            i += 1;
        }
        r
    }

    /// The buckets in the entries of a disk, ordered by name.
    pub fn scan_buckets(&self, entries: &[(Vec<u8>, Vec<u8>)]) -> (r: Vec<BucketMeta>)
        ensures
            bucket_pairs(r@).to_multiset() == entry_buckets(entries@).to_multiset(),
            forall|i: int, j: int|
                0 <= i < j < r@.len() ==> !text_lt(
                    (#[trigger] r@[j]).name@,
                    (#[trigger] r@[i]).name@,
                ),
    {
        let mut r: Vec<BucketMeta> = Vec::new();
        let mut i: usize = 0;
        assert(entry_buckets(entries@.take(0)) =~= Seq::empty());
        assert(bucket_pairs(r@) =~= Seq::empty());
        while i < entries.len()
            invariant
                i <= entries@.len(),
                bucket_pairs(r@).to_multiset() == entry_buckets(
                    entries@.take(i as int),
                ).to_multiset(),
                forall|a: int, b: int|
                    0 <= a < b < r@.len() ==> !text_lt(
                        (#[trigger] r@[b]).name@,
                        (#[trigger] r@[a]).name@,
                    ),
            decreases entries.len() - i,
        {
            let key = text_of_bytes(entries[i].0.as_slice());
            let name: String = match strip_prefix(key.as_str(), "bkt:") {
                Some(name) => name,
                None => key,
            };
            let created_at = text_of_bytes(entries[i].1.as_slice());
            let ghost before = r@;
            let ghost pair = (name@, created_at@);
            proof {
                assert(pair == entry_bucket(entries@[i as int]));
                assert(entry_buckets(entries@.take(i + 1)) =~= entry_buckets(
                    entries@.take(i as int),
                ).push(pair));
                to_multiset_build(entry_buckets(entries@.take(i as int)), pair);
            }
            let mut at: usize = r.len();
            while at > 0 && text_before(name.as_str(), r[at - 1].name.as_str())
                invariant
                    at <= r@.len(),
                    r@ == before,
                    forall|m: int|
                        at <= m < r@.len() ==> text_lt(name@, (#[trigger] r@[m]).name@),
                decreases at,
            {
                at -= 1;
            }
            r.insert(at, BucketMeta { name, created_at });
            proof {
                assert(bucket_pairs(r@) =~= bucket_pairs(before).insert(at as int, pair));
                to_multiset_insert(bucket_pairs(before), at as int, pair);
                assert forall|a: int, b: int| 0 <= a < b < r@.len() implies !text_lt(
                    (#[trigger] r@[b]).name@,
                    (#[trigger] r@[a]).name@,
                ) by {
                    lemma_insert_keeps_order(before, at as int, r@[at as int], a, b);
                }
            }
            i += 1;
        }
        assert(entries@.take(entries@.len() as int) =~= entries@);
        r
    }
}

/// Whether an entry holds the record of a pending version.
pub open spec fn is_pending_entry(entry: (Vec<u8>, Vec<u8>)) -> bool {
    !CHUNK_LIST_SUFFIX@.is_suffix_of(lossy_text(entry.0@)) && is_record(entry.1@) && entry.1@[8]
        == status_byte(VersionStatus::Pending)
}

/// The name and creation time of the bucket in an entry.
pub open spec fn entry_bucket(entry: (Vec<u8>, Vec<u8>)) -> (Seq<char>, Seq<char>) {
    let key = lossy_text(entry.0@);
    (
        if "bkt:"@.is_prefix_of(key) {
            key.skip("bkt:"@.len() as int)
        } else {
            key
        },
        lossy_text(entry.1@),
    )
}

/// The names and creation times of the buckets in a list of entries.
pub open spec fn entry_buckets(entries: Seq<(Vec<u8>, Vec<u8>)>) -> Seq<(Seq<char>, Seq<char>)> {
    Seq::new(entries.len(), |i: int| entry_bucket(entries[i]))
}

/// The names and creation times of a list of buckets.
pub open spec fn bucket_pairs(buckets: Seq<BucketMeta>) -> Seq<(Seq<char>, Seq<char>)> {
    Seq::new(buckets.len(), |i: int| (buckets[i].name@, buckets[i].created_at@))
}

proof fn lemma_insert_keeps_order(
    before: Seq<BucketMeta>,
    at: int,
    x: BucketMeta,
    a: int,
    b: int,
)
    requires
        0 <= at <= before.len(),
        0 <= a < b < before.len() + 1,
        forall|i: int, j: int|
            0 <= i < j < before.len() ==> !text_lt(
                (#[trigger] before[j]).name@,
                (#[trigger] before[i]).name@,
            ),
        forall|m: int| at <= m < before.len() ==> text_lt(x.name@, (#[trigger] before[m]).name@),
        at > 0 ==> !text_lt(x.name@, before[at - 1].name@),
    ensures
        !text_lt(before.insert(at, x)[b].name@, before.insert(at, x)[a].name@),
{
    let after = before.insert(at, x);
    let la = after[a].name@;
    let lb = after[b].name@;
    if text_lt(lb, la) {
        if a == at {
            assert(text_lt(x.name@, before[b - 1].name@));
            lemma_text_lt_transitive(lb, la, lb);
            lemma_text_lt_irreflexive(lb);
        } else if b == at {
            // x comes before an entry in front of it: the last one in front of it does not.
            let p = before[at - 1].name@;
            if a < at - 1 {
                assert(!text_lt(p, before[a].name@));
                lemma_text_lt_total(p, la);
                if text_lt(la, p) {
                    lemma_text_lt_transitive(lb, la, p);
                }
            }
        } else if a < at && b > at {
            assert(!text_lt(before[b - 1].name@, before[a].name@));
        } else if b < at {
            assert(!text_lt(before[b].name@, before[a].name@));
        } else {
            assert(!text_lt(before[b - 1].name@, before[a - 1].name@));
        }
    }
}

proof fn lemma_scan_entries_none(
    acc: Seq<(Seq<char>, Seq<u8>)>,
    limit: nat,
    entries: Seq<(Vec<u8>, Vec<u8>)>,
    n: int,
    m: int,
)
    requires
        0 <= n <= m,
        scan_entries(acc, limit, entries, n) is None,
    ensures
        scan_entries(acc, limit, entries, m) is None,
    decreases m,
{
    if n < m {
        lemma_scan_entries_none(acc, limit, entries, n, m - 1);
    }
}

proof fn lemma_scan_disks_none(limit: nat, disks: Seq<Vec<(Vec<u8>, Vec<u8>)>>, n: int, m: int)
    requires
        0 <= n <= m,
        scan_disks(limit, disks, n) is None,
    ensures
        scan_disks(limit, disks, m) is None,
    decreases m,
{
    if n < m {
        lemma_scan_disks_none(limit, disks, n, m - 1);
    }
}

proof fn lemma_key_is_kept(
    acc: Seq<(Seq<char>, Seq<u8>)>,
    limit: nat,
    entries: Seq<(Vec<u8>, Vec<u8>)>,
    n: int,
    key: Seq<char>,
)
    requires
        has_key(acc, key),
    ensures
        scan_entries(acc, limit, entries, n) matches Some(next) ==> has_key(next, key)
            && next.len() >= acc.len(),
    decreases n,
{
    if n > 0 {
        lemma_key_is_kept(acc, limit, entries, n - 1, key);
        if let Some(a) = scan_entries(acc, limit, entries, n - 1) {
            let k = lossy_text(entries[n - 1].0@);
            if let Some(next) = scan_step(a, limit, k, entries[n - 1].1@) {
                let i = choose|i: int| 0 <= i < a.len() && (#[trigger] a[i]).0 == key;
                assert(next[i].0 == key);
            }
        }
    }
}

proof fn lemma_scan_grows(
    acc: Seq<(Seq<char>, Seq<u8>)>,
    limit: nat,
    entries: Seq<(Vec<u8>, Vec<u8>)>,
    n: int,
)
    ensures
        scan_entries(acc, limit, entries, n) matches Some(next) ==> next.len() >= acc.len(),
    decreases n,
{
    if n > 0 {
        lemma_scan_grows(acc, limit, entries, n - 1);
    }
}

proof fn lemma_entry_is_found(
    acc: Seq<(Seq<char>, Seq<u8>)>,
    limit: nat,
    entries: Seq<(Vec<u8>, Vec<u8>)>,
    n: int,
    j: int,
    object_key: Seq<char>,
    version: u64,
)
    requires
        0 <= j < n <= entries.len(),
        lossy_text(entries[j].0@) == version_key_of(object_key, version),
        scan_entries(acc, limit, entries, n) is Some,
        scan_entries(acc, limit, entries, n).unwrap().len() < limit,
    ensures
        has_key(
            scan_entries(acc, limit, entries, n).unwrap(),
            version_key_of(object_key, version),
        ),
    decreases n,
{
    let key = version_key_of(object_key, version);
    let a = scan_entries(acc, limit, entries, n - 1).unwrap();
    let next = scan_entries(acc, limit, entries, n).unwrap();
    if j == n - 1 {
        lemma_version_key_is_one(object_key, version);
        if !has_key(a, key) {
            assert(next.last().0 == key);
        }
    } else {
        lemma_entry_is_found(acc, limit, entries, n - 1, j, object_key, version);
        let i = choose|i: int| 0 <= i < a.len() && (#[trigger] a[i]).0 == key;
        assert(next[i].0 == key);
    }
}

proof fn lemma_version_key_is_one(object_key: Seq<char>, version: u64)
    ensures
        is_version_key(version_key_of(object_key, version)),
{
    let key = version_key_of(object_key, version);
    let digits = decimal(version as nat);
    lemma_decimal_digits(version as nat);
    assert(key.subrange(0, "ver:"@.len() as int) =~= "ver:"@);
    assert(key.last() == digits.last());
    reveal_strlit("\x1fchunks");
    if CHUNK_LIST_SUFFIX@.is_suffix_of(key) {
        let n = CHUNK_LIST_SUFFIX@.len() as int;
        assert(key.subrange(key.len() - n, key.len() as int)[n - 1] == key.last());
    }
}

/// A scan that does not reach its limit finds every version that one of the disks has on record,
/// whatever the key of its object is.
pub proof fn law_scan_finds_every_version(
    limit: nat,
    disks: Seq<Vec<(Vec<u8>, Vec<u8>)>>,
    n: int,
    d: int,
    j: int,
    object_key: Seq<char>,
    version: u64,
)
    requires
        0 <= d < n <= disks.len(),
        0 <= j < disks[d]@.len(),
        lossy_text(disks[d]@[j].0@) == version_key_of(object_key, version),
        scan_disks(limit, disks, n) is Some,
        scan_disks(limit, disks, n).unwrap().len() < limit,
    ensures
        exists|i: int|
            0 <= i < scan_disks(limit, disks, n).unwrap().len() && (#[trigger] scan_disks(
                limit,
                disks,
                n,
            ).unwrap()[i]).0 == version_key_of(object_key, version),
    decreases n,
{
    let key = version_key_of(object_key, version);
    let a = scan_disks(limit, disks, n - 1).unwrap();
    let entries = disks[n - 1]@;
    if d == n - 1 {
        lemma_entry_is_found(a, limit, entries, entries.len() as int, j, object_key, version);
    } else {
        lemma_scan_grows(a, limit, entries, entries.len() as int);
        law_scan_finds_every_version(limit, disks, n - 1, d, j, object_key, version);
        assert(has_key(a, key));
        lemma_key_is_kept(a, limit, entries, entries.len() as int, key);
    }
}

/// A version whose write is in progress is noticed by its record, and no other version is taken for
/// one.
pub proof fn law_pending_version_is_noticed(
    entry: (Vec<u8>, Vec<u8>),
    object_key: Seq<char>,
    meta: VersionMeta,
)
    requires
        lossy_text(entry.0@) == version_key_of(object_key, meta.version),
        entry.1@ == record_bytes(meta),
    ensures
        is_pending_entry(entry) <==> meta.status == VersionStatus::Pending,
{
    lemma_version_key_is_one(object_key, meta.version);
    lemma_record_head(meta);
}

/// A bucket is listed under its own name, with the time that its entry holds.
pub proof fn law_bucket_is_listed_under_its_name(entry: (Vec<u8>, Vec<u8>), name: Seq<char>)
    requires
        lossy_text(entry.0@) == bucket_key_of(name),
    ensures
        entry_bucket(entry).0 == name,
        entry_bucket(entry).1 == lossy_text(entry.1@),
{
    let key = bucket_key_of(name);
    assert(key.subrange(0, "bkt:"@.len() as int) =~= "bkt:"@);
    assert(key.skip("bkt:"@.len() as int) =~= name);
}

} // verus!
