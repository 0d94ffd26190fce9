//! Object versions and buckets in the replicated metadata store.
use crate::clock::current_time;
use crate::bytes::{get_le, put_le, same_bytes};
use crate::disk::{VersionMeta, VersionStatus};
use crate::errors::{StorageError, StorageResult};
use crate::metadata::{counter_key, version_key, BatchPlan, KvRead, ReplicatedMetaStore, SEP};
use crate::record::{deserialize_record, serialize_record};
use crate::text::{decimal_string, join2, join3, owned, parse_u64, strip_prefix, text_of_bytes};
use vstd::prelude::*;

verus! {

use crate::bytes::{le_bytes, le_value, lemma_pow256_values};
use crate::disk::{same_meta, status_byte};
use crate::metadata::{
    counter_key_of, first_decisive, healthy, law_decimal_is_read_back, law_version_keys_are_distinct,
    put_pairs, texts, version_key_of,
};
use crate::record::{
    fits_record, is_json_len, is_record, is_record_of, json_bytes, modified_in, nats_of_u32,
    record_bytes,
};
use crate::text::decimal;
use vstd::utf8::{encode_utf8, encode_utf8_decode_utf8};

/// What one disk holds of an object: its version counter and the records of its versions.
#[derive(Debug)]
pub struct DiskVersions {
    /// What reading the version counter gave.
    pub counter: KvRead,
    /// The version number in the key and the value of each record that could be read.
    pub records: Vec<(u64, Vec<u8>)>,
}

/// The record under version `v`.
pub open spec fn record_for(records: Seq<(u64, Vec<u8>)>, v: u64) -> Option<Seq<u8>>
    decreases records.len(),
{
    if records.len() == 0 {
        None
    } else if records[0].0 == v {
        Some(records[0].1@)
    } else {
        record_for(records.drop_first(), v)
    }
}

/// The value of the first entry under the key `key`.
pub open spec fn entry_for(entries: Seq<(Vec<u8>, Vec<u8>)>, key: Seq<u8>) -> Option<Seq<u8>>
    decreases entries.len(),
{
    if entries.len() == 0 {
        None
    } else if entries[0].0@ == key {
        Some(entries[0].1@)
    } else {
        entry_for(entries.drop_first(), key)
    }
}

proof fn lemma_record_for_push(records: Seq<(u64, Vec<u8>)>, last: (u64, Vec<u8>), v: u64)
    ensures
        record_for(records.push(last), v) == (if record_for(records, v) is Some {
            record_for(records, v)
        } else if last.0 == v {
            Some(last.1@)
        } else {
            None
        }),
    decreases records.len(),
{
    let all = records.push(last);
    reveal_with_fuel(record_for, 2);
    if records.len() == 0 {
        assert(all[0] == last);
        assert(all.drop_first() =~= Seq::empty());
    } else {
        assert(all[0] == records[0]);
        assert(all.drop_first() =~= records.drop_first().push(last));
        lemma_record_for_push(records.drop_first(), last, v);
    }
}

proof fn lemma_entry_for_push(
    entries: Seq<(Vec<u8>, Vec<u8>)>,
    last: (Vec<u8>, Vec<u8>),
    key: Seq<u8>,
)
    ensures
        entry_for(entries.push(last), key) == (if entry_for(entries, key) is Some {
            entry_for(entries, key)
        } else if last.0@ == key {
            Some(last.1@)
        } else {
            None
        }),
    decreases entries.len(),
{
    let all = entries.push(last);
    reveal_with_fuel(entry_for, 2);
    if entries.len() == 0 {
        assert(all[0] == last);
        assert(all.drop_first() =~= Seq::empty());
    } else {
        assert(all[0] == entries[0]);
        assert(all.drop_first() =~= entries.drop_first().push(last));
        lemma_entry_for_push(entries.drop_first(), last, key);
    }
}

/// The bytes of the key of a version's record.
pub open spec fn version_key_bytes(object_key: Seq<char>, version: u64) -> Seq<u8> {
    encode_utf8(version_key_of(object_key, version))
}

/// The version of an object whose record stands under a key, if there is one.
fn version_under(object_key: &str, key: &[u8]) -> (r: Option<u64>)
    ensures
        forall|v: u64| #[trigger] version_key_bytes(object_key@, v) == key@ <==> r == Some(v),
{
    proof {
        assert forall|v: u64, w: u64|
            #![trigger version_key_bytes(object_key@, v), version_key_bytes(object_key@, w)]
            version_key_bytes(object_key@, v) == version_key_bytes(object_key@, w) implies v
            == w by {
            encode_utf8_decode_utf8(version_key_of(object_key@, v));
            encode_utf8_decode_utf8(version_key_of(object_key@, w));
            law_version_keys_are_distinct(object_key@, v, object_key@, w);
        }
    }
    let text = text_of_bytes(key);
    let mut prefix = join2("ver:", object_key);
    prefix.push(SEP);
    proof {
        assert forall|v: u64| #[trigger] version_key_bytes(object_key@, v) == key@ implies text@
            == prefix@ + decimal(v as nat) by {
            assert(text@ == version_key_of(object_key@, v));
            assert(version_key_of(object_key@, v) =~= prefix@ + decimal(v as nat));
        }
        assert forall|v: u64| text@ == prefix@ + #[trigger] decimal(v as nat) implies
            prefix@.is_prefix_of(text@) && text@.skip(prefix@.len() as int) == decimal(
            v as nat,
        ) by {
            assert(text@.subrange(0, prefix@.len() as int) =~= prefix@);
            assert(text@.skip(prefix@.len() as int) =~= decimal(v as nat));
        }
    }
    let digits: String = match strip_prefix(text.as_str(), prefix.as_str()) {
        Some(digits) => digits,
        None => {
            return None;
        },
    };
    let version: u64 = match parse_u64(digits.as_str()) {
        Some(version) => version,
        None => {
            proof {
                assert forall|v: u64| #[trigger] version_key_bytes(object_key@, v) == key@ implies
                    false by {
                    law_decimal_is_read_back(v);
                }
            }
            return None;
        },
    };
    proof {
        assert forall|v: u64| #[trigger] version_key_bytes(object_key@, v) == key@ implies v
            == version by {
            law_decimal_is_read_back(v);
        }
    }
    let expected = version_key(object_key, version);
    if same_bytes(expected.as_str().as_bytes(), key) {
        assert(version_key_bytes(object_key@, version) == key@);
        Some(version)
    } else {
        None
    }
}

/// What one disk holds of an object, from what reading its version counter gave and from entries
/// among which are the records of its versions.
pub fn disk_versions(object_key: &str, counter: KvRead, entries: &[(Vec<u8>, Vec<u8>)]) -> (r:
    DiskVersions)
    ensures
        r.counter == counter,
        forall|v: u64| #[trigger]
            record_for(r.records@, v) == entry_for(entries@, version_key_bytes(object_key@, v)),
{
    let mut records: Vec<(u64, Vec<u8>)> = Vec::new();
    let mut i: usize = 0;
    assert(entries@.take(0) =~= Seq::empty());
    while i < entries.len()
        invariant
            i <= entries@.len(),
            forall|v: u64| #[trigger]
                record_for(records@, v) == entry_for(
                    entries@.take(i as int),
                    version_key_bytes(object_key@, v),
                ),
        decreases entries.len() - i,
    {
        let ghost before = records@;
        let under = version_under(object_key, entries[i].0.as_slice());
        if let Some(version) = under {
            let value: Vec<u8> = entries[i].1.clone();
            assert(value@ =~= entries@[i as int].1@);
            records.push((version, value));
        }
        proof {
            assert(entries@.take(i + 1) =~= entries@.take(i as int).push(entries@[i as int]));
            assert forall|v: u64| #[trigger] record_for(records@, v) == entry_for(
                entries@.take(i + 1),
                version_key_bytes(object_key@, v),
            ) by {
                lemma_entry_for_push(
                    entries@.take(i as int),
                    entries@[i as int],
                    version_key_bytes(object_key@, v),
                );
                assert(record_for(before, v) == entry_for(
                    entries@.take(i as int),
                    version_key_bytes(object_key@, v),
                ));
                if under is Some {
                    lemma_record_for_push(before, records@.last(), v);
                    assert(records@ =~= before.push(records@.last()));
                }
            }
        }
        i += 1;
    }
    assert(entries@.take(entries@.len() as int) =~= entries@);
    DiskVersions { counter, records }
}

/// The version number in a record.
pub open spec fn number_in(record: Seq<u8>) -> nat {
    le_value(record.subrange(0, 8))
}

/// The record under version `v`, if it is there and says that the version is committed.
pub open spec fn committed_record(d: DiskVersions, v: u64) -> Option<Seq<u8>> {
    match record_for(d.records@, v) {
        Some(b) if is_record(b) && b[8] == 0 => Some(b),
        _ => None,
    }
}

/// The version that the counter of a disk points at, or zero.
pub open spec fn hinted(d: DiskVersions) -> u64 {
    match d.counter {
        KvRead::Value(v) if v@.len() >= 8 => le_value(v@.subrange(0, 8)) as u64,
        _ => 0,
    }
}

/// The version number of the best record so far, or zero.
pub open spec fn best_number(best: Option<Seq<u8>>) -> nat {
    match best {
        Some(b) => number_in(b),
        None => 0,
    }
}

/// The better of two records: the second only if its version is higher.
pub open spec fn better(best: Option<Seq<u8>>, other: Option<Seq<u8>>) -> Option<Seq<u8>> {
    if best_number(other) > best_number(best) {
        other
    } else {
        best
    }
}

/// The committed record with the highest number from `v` down to 1.
pub open spec fn highest_committed(d: DiskVersions, v: u64) -> Option<Seq<u8>>
    decreases v,
{
    if v == 0 {
        None
    } else if best_number(committed_record(d, v)) > 0 {
        committed_record(d, v)
    } else {
        highest_committed(d, (v - 1) as u64)
    }
}

/// The best record after looking at a disk: the one that its counter points at if that is
/// committed and better; while there is none, the highest committed one below.
pub open spec fn best_after(best: Option<Seq<u8>>, d: DiskVersions) -> Option<Seq<u8>> {
    if hinted(d) == 0 {
        best
    } else {
        let b = better(best, committed_record(d, hinted(d)));
        if best_number(b) == 0 {
            highest_committed(d, (hinted(d) - 1) as u64)
        } else {
            b
        }
    }
}

/// The best record after looking at the first `n` disks.
pub open spec fn best_of(disks: Seq<DiskVersions>, n: int) -> Option<Seq<u8>>
    decreases n,
{
    if n <= 0 {
        None
    } else {
        best_after(best_of(disks, n - 1), disks[n - 1])
    }
}

/// The position of the first disk whose counter could not be read.
pub open spec fn first_failed(disks: Seq<DiskVersions>) -> Option<int>
    decreases disks.len(),
{
    if disks.len() == 0 {
        None
    } else {
        match first_failed(disks.drop_last()) {
            Some(i) => Some(i),
            None => if disks.last().counter is Failed {
                Some(disks.len() - 1)
            } else {
                None
            },
        }
    }
}

/// Whether `e` says why an object has no latest version, where `failed` says which disks have
/// failed.
pub open spec fn is_latest_error(
    failed: Seq<bool>,
    object_key: Seq<char>,
    disks: Seq<DiskVersions>,
    e: StorageError,
) -> bool {
    if disks.len() == 0 {
        e is NoHealthyDisks
    } else {
        match first_failed(disks) {
            Some(i) => e matches StorageError::KvError(t) && t@ == "read counter from disk "@
                + decimal(healthy(failed)[i] as nat) + ": "@ + disks[i].counter->Failed_0@,
            None => e matches StorageError::NotFound(t) && t@
                == "no committed version found for key '"@ + object_key + "'"@,
        }
    }
}

proof fn lemma_first_failed_prefix(disks: Seq<DiskVersions>, i: int)
    requires
        0 <= i <= disks.len(),
    ensures
        first_failed(disks.take(i)) is Some ==> first_failed(disks) == first_failed(disks.take(i)),
    decreases disks.len(),
{
    if i < disks.len() {
        lemma_first_failed_prefix(disks.drop_last(), i);
        assert(disks.drop_last().take(i) =~= disks.take(i));
    } else {
        assert(disks.take(i) =~= disks);
    }
}

/// A committed record that is better than a given version number, from one disk.
fn committed_above(d: &DiskVersions, v: u64, above: u64) -> (r: Option<VersionMeta>)
    ensures
        r is Some <==> best_number(committed_record(*d, v)) > above,
        r matches Some(m) ==> is_record_of(committed_record(*d, v).unwrap(), m) && m.version
            == number_in(committed_record(*d, v).unwrap()) && m.status == VersionStatus::Committed,
{
    let mut i: usize = 0;
    assert(d.records@.skip(0) =~= d.records@);
    while i < d.records.len()
        invariant
            i <= d.records@.len(),
            record_for(d.records@, v) == record_for(d.records@.skip(i as int), v),
        decreases d.records.len() - i,
    {
        proof {
            assert(d.records@.skip(i as int)[0] == d.records@[i as int]);
            assert(d.records@.skip(i as int).drop_first() =~= d.records@.skip(i + 1));
        }
        if d.records[i].0 == v {
            match deserialize_record(d.records[i].1.as_slice()) {
                Ok(meta) => {
                    if meta.status == VersionStatus::Committed && meta.version > above {
                        return Some(meta);
                    }
                },
                Err(_) => {},
            }
            return None;
        }
        i += 1;
    }
    None
}

impl ReplicatedMetaStore {
    /// The latest committed version of an object, from what the healthy disks hold of it, in
    /// order.
    pub fn read_latest_committed_from_healthy(
        &self,
        object_key: &str,
        disks: &[DiskVersions],
    ) -> (r: StorageResult<(u64, VersionMeta)>)
        requires
            disks@.len() == healthy(self@).len(),
        ensures
            r is Ok <==> disks@.len() > 0 && first_failed(disks@) is None && best_of(
                disks@,
                disks@.len() as int,
            ) is Some,
            r matches Ok((version, meta)) ==> is_record_of(
                best_of(disks@, disks@.len() as int).unwrap(),
                meta,
            ) && version == meta.version && version > 0 && meta.status == VersionStatus::Committed,
            r matches Err(e) ==> is_latest_error(self@, object_key@, disks@, e),
    {
        let healthy_disks = self.healthy_indexes();
        if healthy_disks.len() == 0 {
            return Err(StorageError::NoHealthyDisks);
        }
        let mut best: Option<VersionMeta> = None;
        let mut best_version: u64 = 0;
        let mut i: usize = 0;
        assert(disks@.take(0) =~= Seq::empty());
        while i < disks.len()
            invariant
                i <= disks@.len() == healthy_disks@.len(),
                disks@.len() > 0,
                healthy_disks@ == healthy(self@),
                first_failed(disks@.take(i as int)) is None,
                best is Some <==> best_of(disks@, i as int) is Some,
                best_version == best_number(best_of(disks@, i as int)),
                best is Some <==> best_version > 0,
                best matches Some(m) ==> is_record_of(best_of(disks@, i as int).unwrap(), m)
                    && m.version == best_version && m.status == VersionStatus::Committed,
            decreases disks.len() - i,
        {
            proof {
                assert(disks@.take(i + 1).drop_last() =~= disks@.take(i as int));
                lemma_first_failed_prefix(disks@, i + 1);
                lemma_pow256_values();
            }
            let d: &DiskVersions = &disks[i];
            let hint: u64 = match &d.counter {
                KvRead::Value(v) => {
                    if v.len() >= 8 {
                        get_le(v.as_slice(), 0, 8) as u64
                    } else {
                        0
                    }
                },
                KvRead::Missing => 0,
                KvRead::Failed(m) => {
                    let mut t = join3(
                        "read counter from disk ",
                        decimal_string(healthy_disks[i] as u128).as_str(),
                        ": ",
                    );
                    t.append(m.as_str());
                    return Err(StorageError::KvError(t));
                },
            };
            assert(hint == hinted(*d));
            if hint != 0 {
                match committed_above(d, hint, best_version) {
                    Some(meta) => {
                        best_version = meta.version;
                        best = Some(meta);
                    },
                    None => {},
                }
                if best_version == 0 {
                    let mut v: u64 = hint - 1;
                    while v > 0 && best_version == 0
                        invariant
                            best_version == 0 ==> best is None && highest_committed(
                                *d,
                                (hint - 1) as u64,
                            ) == highest_committed(*d, v),
                            best_version > 0 ==> highest_committed(*d, (hint - 1) as u64) is Some
                                && best_version == best_number(
                                highest_committed(*d, (hint - 1) as u64),
                            ) && best is Some && is_record_of(
                                highest_committed(*d, (hint - 1) as u64).unwrap(),
                                best.unwrap(),
                            ) && best.unwrap().version == best_version && best.unwrap().status
                                == VersionStatus::Committed,
                        decreases v,
                    {
                        match committed_above(d, v, 0) {
                            Some(meta) => {
                                best_version = meta.version;
                                best = Some(meta);
                            },
                            None => {},
                        }
                        v -= 1;
                    }
                }
            }
            i += 1;
        }
        assert(disks@.take(disks@.len() as int) =~= disks@);
        match best {
            Some(meta) => Ok((best_version, meta)),
            None => Err(
                StorageError::NotFound(
                    join3("no committed version found for key '", object_key, "'"),
                ),
            ),
        }
    }

    /// Read the latest committed version metadata for an object.
    pub fn read_latest_committed(&self, object_key: &str, disks: &[DiskVersions]) -> (r:
        StorageResult<VersionMeta>)
        requires
            disks@.len() == healthy(self@).len(),
        ensures
            r is Ok <==> disks@.len() > 0 && first_failed(disks@) is None && best_of(
                disks@,
                disks@.len() as int,
            ) is Some,
            r matches Ok(meta) ==> is_record_of(
                best_of(disks@, disks@.len() as int).unwrap(),
                meta,
            ) && meta.version > 0 && meta.status == VersionStatus::Committed,
            r matches Err(e) ==> is_latest_error(self@, object_key@, disks@, e),
    {
        match self.read_latest_committed_from_healthy(object_key, disks) {
            Ok((_, meta)) => Ok(meta),
            Err(e) => Err(e),
        }
    }

    /// Read the latest committed version metadata for an object.
    pub fn read_version(&self, object_key: &str, disks: &[DiskVersions]) -> (r: StorageResult<
        VersionMeta,
    >)
        requires
            disks@.len() == healthy(self@).len(),
        ensures
            r is Ok <==> disks@.len() > 0 && first_failed(disks@) is None && best_of(
                disks@,
                disks@.len() as int,
            ) is Some,
            r matches Ok(meta) ==> is_record_of(
                best_of(disks@, disks@.len() as int).unwrap(),
                meta,
            ) && meta.version > 0 && meta.status == VersionStatus::Committed,
            r matches Err(e) ==> is_latest_error(self@, object_key@, disks@, e),
    {
        self.read_latest_committed(object_key, disks)
    }

    /// Read the latest committed version number.
    pub fn read_latest_version(&self, object_key: &str, disks: &[DiskVersions]) -> (r:
        StorageResult<u64>)
        requires
            disks@.len() == healthy(self@).len(),
        ensures
            r is Ok <==> disks@.len() > 0 && first_failed(disks@) is None && best_of(
                disks@,
                disks@.len() as int,
            ) is Some,
            r matches Ok(version) ==> version == best_number(
                best_of(disks@, disks@.len() as int),
            ) && version > 0,
            r matches Err(e) ==> is_latest_error(self@, object_key@, disks@, e),
    {
        match self.read_latest_committed(object_key, disks) {
            Ok(meta) => Ok(meta.version),
            Err(e) => Err(e),
        }
    }
}

/// The record that the search below a version finds is committed, and no committed one is above it.
pub proof fn lemma_highest_committed(d: DiskVersions, v: u64)
    requires
        forall|u: u64| (#[trigger] committed_record(d, u)) matches Some(b) ==> number_in(b) == u,
    ensures
        highest_committed(d, v) matches Some(b) ==> 0 < number_in(b) <= v && committed_record(
            d,
            number_in(b) as u64,
        ) == Some(b),
        forall|u: u64|
            0 < u <= v && (#[trigger] committed_record(d, u)) is Some ==> highest_committed(d, v)
                is Some && u <= best_number(highest_committed(d, v)),
    decreases v,
{
    if v > 0 {
        lemma_highest_committed(d, (v - 1) as u64);
    }
}

/// What to do next in reading a version.
pub enum VersionStep {
    /// Read the version's record from this disk.
    Next(usize),
    /// The read is done.
    Done(StorageResult<VersionMeta>),
}

/// Whether `e` is the error of reading `bytes` as a record.
pub open spec fn is_record_error(bytes: Seq<u8>, e: StorageError) -> bool {
    if bytes.len() < 9 {
        e matches StorageError::KvError(m) && m@ == "version metadata too short"@
    } else {
        e matches StorageError::Transient(m) && m@ == "unknown version status: "@ + decimal(
            bytes[8] as nat,
        )
    }
}

/// Whether `b` is `a` with another status.
pub open spec fn with_status(a: VersionMeta, b: VersionMeta, status: VersionStatus) -> bool {
    &&& b.version == a.version
    &&& b.chunk_checksums@ == a.chunk_checksums@
    &&& b.checksum == a.checksum
    &&& b.status == status
    &&& b.data_size == a.data_size
    &&& b.last_modified@ == a.last_modified@
    &&& b.metadata@ == a.metadata@
    &&& b.compression_level == a.compression_level
    &&& b.compressed_sizes@ == a.compressed_sizes@
}

/// Whether `plan` sets the version counter of an object and does nothing else.
pub open spec fn counts_to(plan: BatchPlan, object_key: Seq<char>, version: u64) -> bool {
    plan.deletes@.len() == 0 && put_pairs(plan.puts@) == seq![
        (counter_key_of(object_key), le_bytes(version as nat, 8)),
    ]
}

/// Whether `plan` writes the record of a version and sets the version counter to it, and does
/// nothing else. The record that is written holds the version.
pub open spec fn sets_pending(plan: BatchPlan, object_key: Seq<char>, meta: VersionMeta) -> bool {
    &&& plan.deletes@.len() == 0
    &&& put_pairs(plan.puts@) == seq![
        (version_key_of(object_key, meta.version), record_bytes(meta)),
        (counter_key_of(object_key), le_bytes(meta.version as nat, 8)),
    ]
    &&& is_json_len(meta.metadata@, json_bytes(meta).len())
    &&& fits_record(meta) ==> forall|m: VersionMeta| #[trigger]
        is_record_of(record_bytes(meta), m) ==> same_meta(m, meta)
}

/// Whether `plan` removes the record of a version and does nothing else.
pub open spec fn drops_version(plan: BatchPlan, object_key: Seq<char>, version: u64) -> bool {
    plan.puts@.len() == 0 && texts(plan.deletes@) == seq![version_key_of(object_key, version)]
}

/// Whether `plan` writes the version of the record `value` as deleted.
pub open spec fn marks_deleted(
    plan: BatchPlan,
    object_key: Seq<char>,
    version: u64,
    value: Seq<u8>,
) -> bool {
    exists|p: VersionMeta, m: VersionMeta|
        #![trigger is_record_of(value, p), record_bytes(m)]
        is_record_of(value, p) && with_status(p, m, VersionStatus::Deleted) && plan.deletes@.len()
            == 0 && put_pairs(plan.puts@) == seq![
            (version_key_of(object_key, version), record_bytes(m)),
        ] && (json_bytes(m).len() <= u32::MAX ==> forall|q: VersionMeta| #[trigger]
            is_record_of(record_bytes(m), q) ==> same_meta(q, m))
}

/// Whether `value` is the record of the pending version `target_version`.
pub open spec fn can_promote(target_version: u64, value: Seq<u8>) -> bool {
    is_record(value) && value[8] == status_byte(VersionStatus::Pending) && le_value(
        value.subrange(0, 8),
    ) == target_version
}

/// Whether `plan` writes the version of the record `value` as committed at `now`.
pub open spec fn promotes(
    plan: BatchPlan,
    object_key: Seq<char>,
    target_version: u64,
    value: Seq<u8>,
    now: Seq<char>,
) -> bool {
    exists|p: VersionMeta, m: VersionMeta|
        #![trigger is_record_of(value, p), writes_record(
            plan,
            version_key_of(object_key, target_version),
            m,
        )]
        is_record_of(value, p) && with_status_at(p, m, VersionStatus::Committed, now)
            && writes_record(plan, version_key_of(object_key, target_version), m) && is_json_len(
            m.metadata@,
            json_bytes(m).len(),
        ) && (json_bytes(m).len() <= u32::MAX ==> forall|q: VersionMeta| #[trigger]
            is_record_of(record_bytes(m), q) ==> same_meta(q, m))
}

/// Whether `e` says why a version cannot be promoted.
pub open spec fn is_promote_error(target_version: u64, value: Seq<u8>, e: StorageError) -> bool {
    if !is_record(value) {
        is_record_error(value, e)
    } else if !can_promote(target_version, value) {
        e is VersionConflict
    } else {
        e is NoHealthyDisks
    }
}

/// Whether `b` is `a` with another status, last modified at `now`.
pub open spec fn with_status_at(
    a: VersionMeta,
    b: VersionMeta,
    status: VersionStatus,
    now: Seq<char>,
) -> bool {
    &&& b.version == a.version
    &&& b.chunk_checksums@ == a.chunk_checksums@
    &&& b.checksum == a.checksum
    &&& b.status == status
    &&& b.data_size == a.data_size
    &&& b.last_modified@ == now
    &&& b.metadata@ == a.metadata@.insert("last-modified"@, now)
    &&& b.compression_level == a.compression_level
    &&& b.compressed_sizes@ == a.compressed_sizes@
}

/// Whether the batch of `plan` sets `key` to the record of `meta` and does nothing else.
pub open spec fn writes_record(plan: BatchPlan, key: Seq<char>, meta: VersionMeta) -> bool {
    plan.deletes@.len() == 0 && put_pairs(plan.puts@) == seq![(key, record_bytes(meta))]
}

/// A version that was read from a record fits into a record if its metadata does.
proof fn lemma_read_version_fits(bytes: Seq<u8>, m: VersionMeta)
    requires
        is_record_of(bytes, m),
    ensures
        m.compression_level matches Some(l) ==> -1 <= l <= 253,
        m.compressed_sizes@.len() <= u32::MAX,
        m.last_modified@ == modified_in(m.metadata@),
{
    assert(nats_of_u32(m.compressed_sizes@).len() == m.compressed_sizes@.len());
    let pos = crate::record::record_level_pos(bytes);
    if pos + 5 <= bytes.len() {
        crate::bytes::lemma_le_value_bound(bytes.subrange(pos + 1, pos + 5));
        lemma_pow256_values();
    }
}

impl ReplicatedMetaStore {
    /// The bytes of a version's record.
    pub fn serialize_meta(&self, meta: &VersionMeta) -> (r: StorageResult<Vec<u8>>)
        requires
            meta.compression_level matches Some(l) ==> l < i32::MAX,
        ensures
            r is Ok,
            r.unwrap()@ == record_bytes(*meta),
            is_record(r.unwrap()@),
            is_json_len(meta.metadata@, json_bytes(*meta).len()),
            fits_record(*meta) ==> forall|m: VersionMeta| #[trigger]
                is_record_of(r.unwrap()@, m) ==> same_meta(m, *meta),
    {
        serialize_record(meta)
    }

    /// The version that a record holds.
    pub fn deserialize_meta(&self, bytes: &[u8]) -> (r: StorageResult<VersionMeta>)
        ensures
            r is Ok <==> is_record(bytes@),
            r matches Ok(meta) ==> is_record_of(bytes@, meta),
            r matches Err(e) ==> is_record_error(bytes@, e),
    {
        deserialize_record(bytes)
    }

    /// What to do next in reading a version, after the healthy disks gave `outcomes` for its
    /// record, in order. The first disk that has the record decides.
    pub fn read_version_by_number(&self, object_key: &str, version: u64, outcomes: &[KvRead]) -> (r:
        VersionStep)
        requires
            outcomes@.len() <= healthy(self@).len(),
        ensures
            match first_decisive(outcomes@) {
                Some(i) => match outcomes@[i] {
                    KvRead::Value(v) => r matches VersionStep::Done(res) && (res is Ok
                        <==> is_record(v@)) && (res matches Ok(m) ==> is_record_of(v@, m)) && (
                    res matches Err(e) ==> is_record_error(v@, e)),
                    KvRead::Failed(m) => r matches VersionStep::Done(Err(e))
                        && e matches StorageError::KvError(t) && t@ == "read version on disk "@
                        + decimal(healthy(self@)[i] as nat) + ": "@ + m@,
                    KvRead::Missing => false,
                },
                None => if outcomes@.len() < healthy(self@).len() {
                    r matches VersionStep::Next(d) && d == healthy(self@)[outcomes@.len() as int]
                } else if healthy(self@).len() == 0 {
                    r matches VersionStep::Done(Err(e)) && e is NoHealthyDisks
                } else {
                    r matches VersionStep::Done(Err(e)) && e matches StorageError::NotFound(t) && t@
                        == "version "@ + decimal(version as nat) + " for key '"@ + object_key@
                        + "' not found on any healthy disk"@
                },
            },
    {
        let healthy_disks = self.healthy_indexes();
        let mut i: usize = 0;
        assert(outcomes@.take(0) =~= Seq::empty());
        while i < outcomes.len()
            invariant
                i <= outcomes@.len() <= healthy_disks@.len(),
                healthy_disks@ == healthy(self@),
                first_decisive(outcomes@.take(i as int)) is None,
            decreases outcomes.len() - i,
        {
            proof {
                assert(outcomes@.take(i + 1).drop_last() =~= outcomes@.take(i as int));
                crate::metadata::lemma_first_decisive_prefix(outcomes@, i + 1);
            }
            match &outcomes[i] {
                KvRead::Value(v) => {
                    return VersionStep::Done(deserialize_record(v.as_slice()));
                },
                KvRead::Failed(m) => {
                    let mut t = join3(
                        "read version on disk ",
                        decimal_string(healthy_disks[i] as u128).as_str(),
                        ": ",
                    );
                    t.append(m.as_str());
                    return VersionStep::Done(Err(StorageError::KvError(t)));
                },
                KvRead::Missing => {},
            }
            i += 1;
        }
        assert(outcomes@.take(outcomes@.len() as int) =~= outcomes@);
        if outcomes.len() < healthy_disks.len() {
            VersionStep::Next(healthy_disks[outcomes.len()])
        } else if healthy_disks.len() == 0 {
            VersionStep::Done(Err(StorageError::NoHealthyDisks))
        } else {
            let mut t = join3("version ", decimal_string(version as u128).as_str(), " for key '");
            t.append(object_key);
            t.append("' not found on any healthy disk");
            VersionStep::Done(Err(StorageError::NotFound(t)))
        }
    }

    /// Plan setting a version as pending on all healthy disks: its record and the version counter.
    pub fn set_pending(&self, object_key: &str, meta: &VersionMeta) -> (r: StorageResult<BatchPlan>)
        requires
            meta.compression_level matches Some(l) ==> l < i32::MAX,
        ensures
            r is Ok <==> healthy(self@).len() > 0,
            r matches Ok(plan) ==> plan.targets@ == healthy(self@) && sets_pending(
                plan,
                object_key@,
                *meta,
            ),
            r matches Err(e) ==> e is NoHealthyDisks,
    {
        let record = match serialize_record(meta) {
            Ok(record) => record,
            Err(e) => {
                return Err(e);
            },
        };
        let mut counter: Vec<u8> = Vec::new();
        put_le(&mut counter, meta.version as u128, 8);
        assert(counter@ =~= le_bytes(meta.version as nat, 8));
        let mut ops: Vec<(String, Vec<u8>)> = Vec::new();
        ops.push((version_key(object_key, meta.version), record));
        ops.push((counter_key(object_key), counter));
        assert(put_pairs(ops@) =~= seq![
            (version_key_of(object_key@, meta.version), record_bytes(*meta)),
            (counter_key_of(object_key@), le_bytes(meta.version as nat, 8)),
        ]);
        self.write_batch(ops)
    }

    fn write_meta(&self, object_key: &str, meta: &VersionMeta) -> (r: StorageResult<BatchPlan>)
        requires
            meta.compression_level matches Some(l) ==> l < i32::MAX,
        ensures
            r is Ok <==> healthy(self@).len() > 0,
            r matches Ok(plan) ==> plan.targets@ == healthy(self@) && writes_record(
                plan,
                version_key_of(object_key@, meta.version),
                *meta,
            ),
            r is Ok ==> is_json_len(meta.metadata@, json_bytes(*meta).len()),
            r matches Ok(plan) ==> (fits_record(*meta) ==> forall|m: VersionMeta| #[trigger]
                is_record_of(record_bytes(*meta), m) ==> same_meta(m, *meta)),
            r matches Err(e) ==> e is NoHealthyDisks,
    {
        let record = match serialize_record(meta) {
            Ok(record) => record,
            Err(e) => {
                return Err(e);
            },
        };
        let mut ops: Vec<(String, Vec<u8>)> = Vec::new();
        ops.push((version_key(object_key, meta.version), record));
        assert(put_pairs(ops@) =~= seq![
            (version_key_of(object_key@, meta.version), record_bytes(*meta)),
        ]);
        self.write_batch(ops)
    }

    /// Plan promoting a version from pending to committed, at the time `now`. `value` is the
    /// version's record as it was read.
    pub fn promote_version_at(
        &self,
        object_key: &str,
        target_version: u64,
        value: &[u8],
        now: &str,
    ) -> (r: StorageResult<BatchPlan>)
        ensures
            r is Ok <==> can_promote(target_version, value@) && healthy(self@).len() > 0,
            r matches Ok(plan) ==> plan.targets@ == healthy(self@) && promotes(
                plan,
                object_key@,
                target_version,
                value@,
                now@,
            ),
            r matches Err(e) ==> is_promote_error(target_version, value@, e),
    {
        let meta = match deserialize_record(value) {
            Ok(meta) => meta,
            Err(e) => {
                return Err(e);
            },
        };
        if meta.status != VersionStatus::Pending || meta.version != target_version {
            return Err(StorageError::VersionConflict);
        }
        let mut committed = meta.clone();
        committed.status = VersionStatus::Committed;
        committed.last_modified = owned(now);
        committed.metadata.insert(owned("last-modified"), owned(now));
        proof {
            lemma_read_version_fits(value@, meta);
            assert(with_status_at(meta, committed, VersionStatus::Committed, now@));
            if json_bytes(committed).len() <= u32::MAX {
                assert(fits_record(committed));
            }
        }
        self.write_meta(object_key, &committed)
    }

    /// Plan promoting a version from pending to committed, at the time of the call. `value` is the
    /// version's record as it was read.
    pub fn promote_version(&self, object_key: &str, target_version: u64, value: &[u8]) -> (r:
        StorageResult<BatchPlan>)
        ensures
            r is Ok <==> can_promote(target_version, value@) && healthy(self@).len() > 0,
            r matches Ok(plan) ==> plan.targets@ == healthy(self@) && exists|now: Seq<char>| #[trigger]
                promotes(plan, object_key@, target_version, value@, now) && encode_utf8(now).len()
                    <= 64,
            r matches Err(e) ==> is_promote_error(target_version, value@, e),
    {
        let now = current_time();
        self.promote_version_at(object_key, target_version, value, now.as_str())
    }

    /// The next version number of an object, with the batch that stores it. `current` is what
    /// reading the version counter gave; an object without a counter starts at one.
    pub fn incr_version_counter(&self, object_key: &str, current: &StorageResult<Vec<u8>>) -> (r:
        StorageResult<(u64, BatchPlan)>)
        requires
            current matches Ok(v) ==> v@.len() >= 8 && le_value(v@.subrange(0, 8)) < u64::MAX,
        ensures
            r is Ok <==> (current matches Err(e) ==> e is NotFound) && healthy(self@).len() > 0,
            r matches Ok((version, plan)) ==> version == (match current {
                Ok(v) => le_value(v@.subrange(0, 8)) + 1,
                Err(_) => 1,
            }) && plan.targets@ == healthy(self@) && counts_to(plan, object_key@, version),
            r matches Err(e) ==> if current matches Err(c) && !(c is NotFound) {
                current == StorageResult::<Vec<u8>>::Err(e)
            } else {
                e is NoHealthyDisks
            },
    {
        proof {
            lemma_pow256_values();
        }
        let value: u64 = match current {
            Ok(v) => get_le(v.as_slice(), 0, 8) as u64,
            Err(StorageError::NotFound(_)) => 0,
            Err(e) => {
                return Err(e.clone());
            },
        };
        let version: u64 = value + 1;
        let mut counter: Vec<u8> = Vec::new();
        put_le(&mut counter, version as u128, 8);
        assert(counter@ =~= le_bytes(version as nat, 8));
        let mut ops: Vec<(String, Vec<u8>)> = Vec::new();
        ops.push((counter_key(object_key), counter));
        assert(put_pairs(ops@) =~= seq![(counter_key_of(object_key@), le_bytes(version as nat, 8))]);
        match self.write_batch(ops) {
            Ok(plan) => Ok((version, plan)),
            Err(e) => Err(e),
        }
    }

    /// Plan deleting a pending version from all healthy disks.
    pub fn delete_pending(&self, object_key: &str, version: u64) -> (r: StorageResult<BatchPlan>)
        ensures
            r is Ok <==> healthy(self@).len() > 0,
            r matches Ok(plan) ==> plan.targets@ == healthy(self@) && drops_version(
                plan,
                object_key@,
                version,
            ),
            r matches Err(e) ==> e is NoHealthyDisks,
    {
        let mut keys: Vec<String> = Vec::new();
        keys.push(version_key(object_key, version));
        assert(texts(keys@) =~= seq![version_key_of(object_key@, version)]);
        self.delete_keys(keys)
    }

    /// Plan marking the latest version as deleted. `value` is its record as it was read.
    pub fn mark_deleted(&self, object_key: &str, latest_version: u64, value: &[u8]) -> (r:
        StorageResult<BatchPlan>)
        ensures
            r is Ok <==> is_record(value@) && healthy(self@).len() > 0,
            r matches Ok(plan) ==> plan.targets@ == healthy(self@) && marks_deleted(
                plan,
                object_key@,
                latest_version,
                value@,
            ),
            r matches Err(e) ==> if !is_record(value@) {
                is_record_error(value@, e)
            } else {
                e is NoHealthyDisks
            },
    {
        let meta = match deserialize_record(value) {
            Ok(meta) => meta,
            Err(e) => {
                return Err(e);
            },
        };
        let mut deleted = meta.clone();
        deleted.status = VersionStatus::Deleted;
        proof {
            lemma_read_version_fits(value@, meta);
            assert(with_status(meta, deleted, VersionStatus::Deleted));
            if json_bytes(deleted).len() <= u32::MAX {
                assert(fits_record(deleted));
            }
        }
        let record = match serialize_record(&deleted) {
            Ok(record) => record,
            Err(e) => {
                return Err(e);
            },
        };
        let mut ops: Vec<(String, Vec<u8>)> = Vec::new();
        ops.push((version_key(object_key, latest_version), record));
        assert(put_pairs(ops@) =~= seq![
            (version_key_of(object_key@, latest_version), record_bytes(deleted)),
        ]);
        self.write_batch(ops)
    }
}

/// The record of a version is found among the entries of a disk exactly where one of them stands
/// under its key, and it is the value of such an entry.
pub proof fn law_entry_is_found_by_its_key(entries: Seq<(Vec<u8>, Vec<u8>)>, key: Seq<u8>)
    ensures
        match entry_for(entries, key) {
            Some(value) => exists|i: int|
                0 <= i < entries.len() && (#[trigger] entries[i]).0@ == key && entries[i].1@
                    == value,
            None => forall|i: int| 0 <= i < entries.len() ==> (#[trigger] entries[i]).0@ != key,
        },
    decreases entries.len(),
{
    if entries.len() > 0 && entries[0].0@ != key {
        let rest = entries.drop_first();
        law_entry_is_found_by_its_key(rest, key);
        match entry_for(rest, key) {
            Some(value) => {
                let i = choose|i: int|
                    0 <= i < rest.len() && (#[trigger] rest[i]).0@ == key && rest[i].1@ == value;
                assert(entries[i + 1] == rest[i]);
            },
            None => {
                assert forall|i: int| 0 <= i < entries.len() implies (#[trigger] entries[i]).0@
                    != key by {
                    if i > 0 {
                        assert(rest[i - 1] == entries[i]);
                    }
                }
            },
        }
    }
}

} // verus!
