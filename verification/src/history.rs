//! What becomes of the versions of an object over time: the laws that the plans of the metadata
//! store keep on a database that they are applied to.
use vstd::prelude::*;

verus! {

use crate::api::{recovery_of, sets_value, with_metadata, RecoveryAction};
use crate::bytes::{le_bytes, le_value, lemma_le_round_trip, lemma_le_value_bound, lemma_pow256_values};
use crate::checksum::xxh3;
use crate::chunk_store::is_chunk_encoding;
use crate::disk::{same_meta, VersionMeta, VersionStatus};
use crate::metadata::{
    agree, batch_applied, bucket_key_of, counter_key_of, healthy, law_version_keys_are_distinct,
    lemma_healthy_below, put_pairs, texts, version_key_of, BatchPlan, KvRead,
};
use crate::object_read::chunk_of;
use crate::object_write::is_written;
use crate::record::{
    fits_record, is_json_len, is_record, is_record_of, json_bytes, lemma_record_head, metadata_json,
    nats_of_u128, record_bytes,
};
use crate::versions::{
    best_number, best_of, can_promote, committed_record, counts_to, drops_version, hinted,
    lemma_highest_committed, marks_deleted, number_in, promotes, record_for, sets_pending,
    with_status, with_status_at, writes_record, DiskVersions,
};
use vstd::utf8::encode_utf8;

/// A database after a plan.
pub open spec fn plan_applied(db: Map<Seq<char>, Seq<u8>>, plan: BatchPlan) -> Map<
    Seq<char>,
    Seq<u8>,
> {
    batch_applied(db, put_pairs(plan.puts@), texts(plan.deletes@))
}

/// The record of a version in a database.
pub open spec fn record_in(
    db: Map<Seq<char>, Seq<u8>>,
    object_key: Seq<char>,
    version: u64,
) -> Option<Seq<u8>> {
    let key = version_key_of(object_key, version);
    if db.contains_key(key) {
        Some(db[key])
    } else {
        None
    }
}

/// The record of a version in a database, if the version is committed.
pub open spec fn committed_in(
    db: Map<Seq<char>, Seq<u8>>,
    object_key: Seq<char>,
    version: u64,
) -> Option<Seq<u8>> {
    match record_in(db, object_key, version) {
        Some(b) if is_record(b) && b[8] == 0 => Some(b),
        _ => None,
    }
}

/// The version counter of an object in a database, or zero.
pub open spec fn counter_in(db: Map<Seq<char>, Seq<u8>>, object_key: Seq<char>) -> nat {
    let key = counter_key_of(object_key);
    if db.contains_key(key) && db[key].len() >= 8 {
        le_value(db[key].subrange(0, 8))
    } else {
        0
    }
}

/// Whether the versions of an object in a database are in order: each record holds the number that
/// it stands under, and the counter has come past it.
pub open spec fn is_history(db: Map<Seq<char>, Seq<u8>>, object_key: Seq<char>) -> bool {
    forall|v: u64| (#[trigger] record_in(db, object_key, v)) matches Some(b) ==> is_record(b)
        && number_in(b) == v && 0 < v <= counter_in(db, object_key)
}

/// Whether `plan` is the next step in the life of an object: counting up, writing the version that
/// was counted as pending, committing a pending version, deleting a version, abandoning one, or
/// changing the metadata of one.
pub open spec fn is_step(
    db: Map<Seq<char>, Seq<u8>>,
    plan: BatchPlan,
    object_key: Seq<char>,
) -> bool {
    ||| exists|v: u64| #[trigger]
        counts_to(plan, object_key, v) && v == counter_in(db, object_key) + 1
    ||| exists|m: VersionMeta| #[trigger]
        sets_pending(plan, object_key, m) && 0 < m.version == counter_in(db, object_key)
    ||| exists|v: u64, value: Seq<u8>, now: Seq<char>| #[trigger]
        promotes(plan, object_key, v, value, now) && record_in(db, object_key, v) == Some(value)
            && can_promote(v, value)
    ||| exists|v: u64, value: Seq<u8>| #[trigger]
        marks_deleted(plan, object_key, v, value) && record_in(db, object_key, v) == Some(value)
    ||| exists|v: u64| #[trigger] drops_version(plan, object_key, v)
    ||| exists|m: VersionMeta, key: Seq<char>, value: Seq<char>, now: Seq<char>| #[trigger]
        sets_value(plan, object_key, m, key, value, now) && (record_in(
            db,
            object_key,
            m.version,
        ) matches Some(b) && is_record_of(b, m))
}

/// Whether what one disk gave of an object is what a database holds of it.
pub open spec fn holds(
    d: DiskVersions,
    db: Map<Seq<char>, Seq<u8>>,
    object_key: Seq<char>,
) -> bool {
    let key = counter_key_of(object_key);
    &&& match d.counter {
        KvRead::Value(v) => db.contains_key(key) && db[key] == v@,
        KvRead::Missing => !db.contains_key(key),
        KvRead::Failed(_) => false,
    }
    &&& forall|v: u64| #[trigger]
        record_for(d.records@, v) == record_in(db, object_key, v)
}

/// What the healthy replicas give of an object is what the database holds of it that they all are a
/// copy of.
pub proof fn law_healthy_replicas_hold_the_object(
    failed: Seq<bool>,
    dbs: Seq<Map<Seq<char>, Seq<u8>>>,
    db: Map<Seq<char>, Seq<u8>>,
    object_key: Seq<char>,
    disks: Seq<DiskVersions>,
)
    requires
        failed.len() <= usize::MAX,
        agree(failed, dbs, db),
        disks.len() == healthy(failed).len(),
        forall|i: int|
            0 <= i < disks.len() ==> holds(
                #[trigger] disks[i],
                dbs[healthy(failed)[i] as int],
                object_key,
            ),
    ensures
        forall|i: int| 0 <= i < disks.len() ==> holds(#[trigger] disks[i], db, object_key),
{
    lemma_healthy_below(failed, failed.len() as int);
    assert forall|i: int| 0 <= i < disks.len() implies holds(
        #[trigger] disks[i],
        db,
        object_key,
    ) by {
        let d = healthy(failed)[i] as int;
        assert(!failed[d]);
        assert(dbs[d] == db);
    }
}

proof fn lemma_put_one(
    db: Map<Seq<char>, Seq<u8>>,
    plan: BatchPlan,
    key: Seq<char>,
    value: Seq<u8>,
)
    requires
        plan.deletes@.len() == 0,
        put_pairs(plan.puts@) == seq![(key, value)],
    ensures
        plan_applied(db, plan) == db.insert(key, value),
{
    let puts = put_pairs(plan.puts@);
    assert(texts(plan.deletes@) =~= Seq::empty());
    assert(puts.drop_last() =~= Seq::empty());
    assert(puts.last() == (key, value));
    reveal_with_fuel(batch_applied, 2);
}

proof fn lemma_put_two(
    db: Map<Seq<char>, Seq<u8>>,
    plan: BatchPlan,
    a: (Seq<char>, Seq<u8>),
    b: (Seq<char>, Seq<u8>),
)
    requires
        plan.deletes@.len() == 0,
        put_pairs(plan.puts@) == seq![a, b],
    ensures
        plan_applied(db, plan) == db.insert(a.0, a.1).insert(b.0, b.1),
{
    let puts = put_pairs(plan.puts@);
    assert(texts(plan.deletes@) =~= Seq::empty());
    assert(puts.drop_last() =~= seq![a]);
    assert(puts.last() == b);
    assert(seq![a].drop_last() =~= Seq::empty());
    assert(seq![a].last() == a);
    reveal_with_fuel(batch_applied, 3);
}

proof fn lemma_delete_one(db: Map<Seq<char>, Seq<u8>>, plan: BatchPlan, key: Seq<char>)
    requires
        plan.puts@.len() == 0,
        texts(plan.deletes@) == seq![key],
    ensures
        plan_applied(db, plan) == db.remove(key),
{
    let deletes = texts(plan.deletes@);
    assert(put_pairs(plan.puts@) =~= Seq::empty());
    assert(deletes.drop_last() =~= Seq::empty());
    assert(deletes.last() == key);
    reveal_with_fuel(batch_applied, 2);
}

/// The counters of objects are under keys of their own.
proof fn lemma_counter_keys(k1: Seq<char>, k2: Seq<char>, v: u64)
    ensures
        counter_key_of(k1) != version_key_of(k2, v),
        counter_key_of(k1) == counter_key_of(k2) ==> k1 == k2,
{
    reveal_strlit("obj:meta:");
    reveal_strlit("ver:");
    assert(counter_key_of(k1)[0] == 'o');
    assert(version_key_of(k2, v)[0] == 'v');
    if counter_key_of(k1) == counter_key_of(k2) {
        assert(k1 =~= counter_key_of(k1).skip(9));
        assert(k2 =~= counter_key_of(k2).skip(9));
    }
}

/// Writing the record of a version changes nothing else of any object.
proof fn lemma_record_written(
    db: Map<Seq<char>, Seq<u8>>,
    object_key: Seq<char>,
    version: u64,
    bytes: Seq<u8>,
    other: Seq<char>,
)
    ensures
        counter_in(db.insert(version_key_of(object_key, version), bytes), other) == counter_in(
            db,
            other,
        ),
        forall|w: u64| #[trigger]
            record_in(db.insert(version_key_of(object_key, version), bytes), other, w) == (
            if other == object_key && w == version {
                Some(bytes)
            } else {
                record_in(db, other, w)
            }),
{
    let key = version_key_of(object_key, version);
    lemma_counter_keys(other, object_key, version);
    assert forall|w: u64| #[trigger] record_in(db.insert(key, bytes), other, w) == (if other
        == object_key && w == version {
        Some(bytes)
    } else {
        record_in(db, other, w)
    }) by {
        if version_key_of(other, w) == key {
            law_version_keys_are_distinct(other, w, object_key, version);
        }
    }
}

/// Removing the record of a version changes nothing else of any object.
proof fn lemma_record_removed(
    db: Map<Seq<char>, Seq<u8>>,
    object_key: Seq<char>,
    version: u64,
    other: Seq<char>,
)
    ensures
        counter_in(db.remove(version_key_of(object_key, version)), other) == counter_in(db, other),
        forall|w: u64| #[trigger]
            record_in(db.remove(version_key_of(object_key, version)), other, w) == (if other
                == object_key && w == version {
                None
            } else {
                record_in(db, other, w)
            }),
{
    let key = version_key_of(object_key, version);
    lemma_counter_keys(other, object_key, version);
    assert forall|w: u64| #[trigger] record_in(db.remove(key), other, w) == (if other == object_key
        && w == version {
        None
    } else {
        record_in(db, other, w)
    }) by {
        if version_key_of(other, w) == key {
            law_version_keys_are_distinct(other, w, object_key, version);
        }
    }
}

/// Setting the counter of an object changes nothing else of any object.
proof fn lemma_counter_set(
    db: Map<Seq<char>, Seq<u8>>,
    object_key: Seq<char>,
    version: u64,
    other: Seq<char>,
)
    ensures
        counter_in(
            db.insert(counter_key_of(object_key), le_bytes(version as nat, 8)),
            other,
        ) == (if other == object_key {
            version as nat
        } else {
            counter_in(db, other)
        }),
        forall|w: u64| #[trigger]
            record_in(
                db.insert(counter_key_of(object_key), le_bytes(version as nat, 8)),
                other,
                w,
            ) == record_in(db, other, w),
{
    let bytes = le_bytes(version as nat, 8);
    lemma_pow256_values();
    lemma_le_round_trip(version as nat, 8);
    assert(bytes.subrange(0, 8) =~= bytes);
    lemma_counter_keys(other, object_key, version);
    assert forall|w: u64| #[trigger] record_in(
        db.insert(counter_key_of(object_key), bytes),
        other,
        w,
    ) == record_in(db, other, w) by {
        lemma_counter_keys(object_key, other, w);
    }
}

/// Rewriting the record of a version with the same number keeps a history.
proof fn lemma_rewritten(
    db: Map<Seq<char>, Seq<u8>>,
    plan: BatchPlan,
    object_key: Seq<char>,
    m: VersionMeta,
    other: Seq<char>,
)
    requires
        is_history(db, object_key),
        is_history(db, other),
        record_in(db, object_key, m.version) is Some,
        writes_record(plan, version_key_of(object_key, m.version), m),
    ensures
        is_history(plan_applied(db, plan), other),
{
    lemma_put_one(db, plan, version_key_of(object_key, m.version), record_bytes(m));
    lemma_record_written(db, object_key, m.version, record_bytes(m), other);
    lemma_record_head(m);
}

/// Whatever the next step in the life of an object is, the versions of all objects stay in order.
pub proof fn law_history_is_kept(
    db: Map<Seq<char>, Seq<u8>>,
    plan: BatchPlan,
    object_key: Seq<char>,
    other: Seq<char>,
)
    requires
        is_history(db, object_key),
        is_history(db, other),
        is_step(db, plan, object_key),
    ensures
        is_history(plan_applied(db, plan), other),
{
    if exists|v: u64| #[trigger]
        counts_to(plan, object_key, v) && v == counter_in(db, object_key) + 1 {
        let v = choose|v: u64| #[trigger]
            counts_to(plan, object_key, v) && v == counter_in(db, object_key) + 1;
        lemma_put_one(db, plan, counter_key_of(object_key), le_bytes(v as nat, 8));
        lemma_counter_set(db, object_key, v, other);
    } else if exists|m: VersionMeta| #[trigger]
        sets_pending(plan, object_key, m) && 0 < m.version == counter_in(db, object_key) {
        let m = choose|m: VersionMeta| #[trigger]
            sets_pending(plan, object_key, m) && 0 < m.version == counter_in(db, object_key);
        lemma_pending_written(db, plan, object_key, m, other);
    } else if exists|v: u64, value: Seq<u8>, now: Seq<char>| #[trigger]
        promotes(plan, object_key, v, value, now) && record_in(db, object_key, v) == Some(value)
            && can_promote(v, value) {
        let (v, value, now) = choose|v: u64, value: Seq<u8>, now: Seq<char>| #[trigger]
            promotes(plan, object_key, v, value, now) && record_in(db, object_key, v) == Some(value)
                && can_promote(v, value);
        let m = lemma_promoted_record(plan, object_key, v, value, now);
        lemma_rewritten(db, plan, object_key, m, other);
    } else if exists|v: u64, value: Seq<u8>| #[trigger]
        marks_deleted(plan, object_key, v, value) && record_in(db, object_key, v) == Some(value) {
        let (v, value) = choose|v: u64, value: Seq<u8>| #[trigger]
            marks_deleted(plan, object_key, v, value) && record_in(db, object_key, v) == Some(value);
        let m = lemma_deleted_record(db, plan, object_key, v, value);
        lemma_rewritten(db, plan, object_key, m, other);
    } else if exists|v: u64| #[trigger] drops_version(plan, object_key, v) {
        let v = choose|v: u64| #[trigger] drops_version(plan, object_key, v);
        lemma_delete_one(db, plan, version_key_of(object_key, v));
        lemma_record_removed(db, object_key, v, other);
    } else {
        let (meta, key, value, now) = choose|
            m: VersionMeta,
            key: Seq<char>,
            value: Seq<char>,
            now: Seq<char>,
        | #[trigger]
            sets_value(plan, object_key, m, key, value, now) && (record_in(
                db,
                object_key,
                m.version,
            ) matches Some(b) && is_record_of(b, m));
        let m = choose|m: VersionMeta| #[trigger]
            with_metadata(meta, m, key, value, now) && writes_record(
                plan,
                version_key_of(object_key, meta.version),
                m,
            );
        assert(m.version == meta.version);
        lemma_rewritten(db, plan, object_key, m, other);
    }
}

/// The record that marks a version as deleted.
proof fn lemma_deleted_record(
    db: Map<Seq<char>, Seq<u8>>,
    plan: BatchPlan,
    object_key: Seq<char>,
    version: u64,
    value: Seq<u8>,
) -> (m: VersionMeta)
    requires
        is_history(db, object_key),
        record_in(db, object_key, version) == Some(value),
        marks_deleted(plan, object_key, version, value),
    ensures
        m.version == version,
        m.status == VersionStatus::Deleted,
        writes_record(plan, version_key_of(object_key, version), m),
{
    let (p, m) = choose|p: VersionMeta, m: VersionMeta|
        #![trigger is_record_of(value, p), record_bytes(m)]
        is_record_of(value, p) && with_status(p, m, VersionStatus::Deleted)
            && plan.deletes@.len() == 0 && put_pairs(plan.puts@) == seq![
            (version_key_of(object_key, version), record_bytes(m)),
        ];
    assert(m.version == number_in(value));
    m
}

/// A database after a version was written as pending.
proof fn lemma_pending_written(
    db: Map<Seq<char>, Seq<u8>>,
    plan: BatchPlan,
    object_key: Seq<char>,
    m: VersionMeta,
    other: Seq<char>,
)
    requires
        sets_pending(plan, object_key, m),
        m.version == counter_in(db, object_key),
    ensures
        forall|w: u64| #[trigger]
            record_in(plan_applied(db, plan), other, w) == (if other == object_key && w
                == m.version {
                Some(record_bytes(m))
            } else {
                record_in(db, other, w)
            }),
        counter_in(plan_applied(db, plan), other) == counter_in(db, other),
        is_record(record_bytes(m)),
        number_in(record_bytes(m)) == m.version,
{
    let a = (version_key_of(object_key, m.version), record_bytes(m));
    let b = (counter_key_of(object_key), le_bytes(m.version as nat, 8));
    lemma_put_two(db, plan, a, b);
    lemma_record_written(db, object_key, m.version, record_bytes(m), other);
    lemma_counter_set(db.insert(a.0, a.1), object_key, m.version, other);
    lemma_record_head(m);
    let middle = db.insert(a.0, a.1);
    assert forall|w: u64| #[trigger] record_in(plan_applied(db, plan), other, w) == (if other
        == object_key && w == m.version {
        Some(record_bytes(m))
    } else {
        record_in(db, other, w)
    }) by {
        assert(record_in(middle, other, w) == (if other == object_key && w == m.version {
            Some(record_bytes(m))
        } else {
            record_in(db, other, w)
        }));
    }
}

proof fn lemma_holds(d: DiskVersions, db: Map<Seq<char>, Seq<u8>>, object_key: Seq<char>)
    requires
        holds(d, db, object_key),
    ensures
        hinted(d) == counter_in(db, object_key),
        forall|v: u64| #[trigger] committed_record(d, v) == committed_in(db, object_key, v),
{
    let key = counter_key_of(object_key);
    if db.contains_key(key) && db[key].len() >= 8 {
        lemma_le_value_bound(db[key].subrange(0, 8));
        lemma_pow256_values();
    }
    assert forall|v: u64| #[trigger] committed_record(d, v) == committed_in(db, object_key, v) by {
        assert(record_for(d.records@, v) == record_in(db, object_key, v));
    }
}

proof fn lemma_best_of(
    disks: Seq<DiskVersions>,
    db: Map<Seq<char>, Seq<u8>>,
    object_key: Seq<char>,
    n: int,
)
    requires
        0 < n <= disks.len(),
        is_history(db, object_key),
        forall|i: int| 0 <= i < disks.len() ==> holds(#[trigger] disks[i], db, object_key),
    ensures
        best_of(disks, n) matches Some(b) ==> 0 < number_in(b) <= counter_in(db, object_key)
            && committed_in(db, object_key, number_in(b) as u64) == Some(b),
        forall|u: u64|
            (#[trigger] committed_in(db, object_key, u)) is Some ==> best_of(disks, n) is Some && u
                <= best_number(best_of(disks, n)),
    decreases n,
{
    let d = disks[n - 1];
    lemma_holds(d, db, object_key);
    let h = hinted(d);
    assert forall|u: u64| (#[trigger] committed_record(d, u)) is Some implies number_in(
        committed_record(d, u).unwrap(),
    ) == u && 0 < u <= h by {
        assert(committed_record(d, u) == committed_in(db, object_key, u));
        assert(record_in(db, object_key, u) is Some);
    }
    assert forall|u: u64| (#[trigger] committed_in(db, object_key, u)) is Some implies
        committed_record(d, u) == committed_in(db, object_key, u) by {
        assert(committed_record(d, u) == committed_in(db, object_key, u));
    }
    if n > 1 {
        lemma_best_of(disks, db, object_key, n - 1);
    }
    if h > 0 {
        lemma_highest_committed(d, (h - 1) as u64);
        assert(committed_record(d, h) == committed_in(db, object_key, h));
    }
}

/// On replicas that hold the same versions of an object, in order, the latest version is the highest
/// one that is committed; there is none only if no version is committed.
pub proof fn law_latest_is_highest_committed(
    disks: Seq<DiskVersions>,
    db: Map<Seq<char>, Seq<u8>>,
    object_key: Seq<char>,
)
    requires
        disks.len() > 0,
        is_history(db, object_key),
        forall|i: int| 0 <= i < disks.len() ==> holds(#[trigger] disks[i], db, object_key),
    ensures
        best_of(disks, disks.len() as int) matches Some(b) ==> committed_in(
            db,
            object_key,
            number_in(b) as u64,
        ) == Some(b),
        forall|u: u64|
            (#[trigger] committed_in(db, object_key, u)) is Some ==> best_of(
                disks,
                disks.len() as int,
            ) is Some && u <= best_number(best_of(disks, disks.len() as int)),
{
    lemma_best_of(disks, db, object_key, disks.len() as int);
}

/// Whether two databases differ in no more than one version of one object and its counter, which
/// has not gone down.
pub open spec fn differ_in(
    before: Map<Seq<char>, Seq<u8>>,
    after: Map<Seq<char>, Seq<u8>>,
    object_key: Seq<char>,
    version: u64,
) -> bool {
    &&& counter_in(after, object_key) >= counter_in(before, object_key)
    &&& forall|other: Seq<char>|
        other != object_key ==> #[trigger] counter_in(after, other) == counter_in(before, other)
    &&& forall|other: Seq<char>, w: u64|
        other != object_key || w != version ==> #[trigger] record_in(after, other, w) == record_in(
            before,
            other,
            w,
        )
}

proof fn lemma_rewritten_differs(
    db: Map<Seq<char>, Seq<u8>>,
    plan: BatchPlan,
    object_key: Seq<char>,
    m: VersionMeta,
)
    requires
        writes_record(plan, version_key_of(object_key, m.version), m),
    ensures
        differ_in(db, plan_applied(db, plan), object_key, m.version),
        record_in(plan_applied(db, plan), object_key, m.version) == Some(record_bytes(m)),
        counter_in(plan_applied(db, plan), object_key) == counter_in(db, object_key),
{
    let after = plan_applied(db, plan);
    lemma_put_one(db, plan, version_key_of(object_key, m.version), record_bytes(m));
    lemma_record_written(db, object_key, m.version, record_bytes(m), object_key);
    assert forall|other: Seq<char>| other != object_key implies #[trigger] counter_in(after, other)
        == counter_in(db, other) by {
        lemma_record_written(db, object_key, m.version, record_bytes(m), other);
    }
    assert forall|other: Seq<char>, w: u64|
        other != object_key || w != m.version implies #[trigger] record_in(after, other, w)
        == record_in(db, other, w) by {
        lemma_record_written(db, object_key, m.version, record_bytes(m), other);
    }
}

/// A step in the life of an object leaves all other objects, and all but one of its versions, as
/// they are, and the version counter does not go down: every other version can still be read.
pub proof fn law_other_versions_are_kept(
    db: Map<Seq<char>, Seq<u8>>,
    plan: BatchPlan,
    object_key: Seq<char>,
) -> (version: u64)
    requires
        is_history(db, object_key),
        is_step(db, plan, object_key),
    ensures
        differ_in(db, plan_applied(db, plan), object_key, version),
{
    if exists|v: u64| #[trigger]
        counts_to(plan, object_key, v) && v == counter_in(db, object_key) + 1 {
        let v = choose|v: u64| #[trigger]
            counts_to(plan, object_key, v) && v == counter_in(db, object_key) + 1;
        lemma_counted_differs(db, plan, object_key, v);
        v
    } else if exists|m: VersionMeta| #[trigger]
        sets_pending(plan, object_key, m) && 0 < m.version == counter_in(db, object_key) {
        let m = choose|m: VersionMeta| #[trigger]
            sets_pending(plan, object_key, m) && 0 < m.version == counter_in(db, object_key);
        lemma_pending_differs(db, plan, object_key, m);
        m.version
    } else if exists|v: u64, value: Seq<u8>, now: Seq<char>| #[trigger]
        promotes(plan, object_key, v, value, now) && record_in(db, object_key, v) == Some(value)
            && can_promote(v, value) {
        let (v, value, now) = choose|v: u64, value: Seq<u8>, now: Seq<char>| #[trigger]
            promotes(plan, object_key, v, value, now) && record_in(db, object_key, v) == Some(value)
                && can_promote(v, value);
        let m = lemma_promoted_record(plan, object_key, v, value, now);
        lemma_rewritten_differs(db, plan, object_key, m);
        v
    } else if exists|v: u64, value: Seq<u8>| #[trigger]
        marks_deleted(plan, object_key, v, value) && record_in(db, object_key, v) == Some(value) {
        let (v, value) = choose|v: u64, value: Seq<u8>| #[trigger]
            marks_deleted(plan, object_key, v, value) && record_in(db, object_key, v) == Some(value);
        let m = lemma_deleted_record(db, plan, object_key, v, value);
        lemma_rewritten_differs(db, plan, object_key, m);
        v
    } else if exists|v: u64| #[trigger] drops_version(plan, object_key, v) {
        let v = choose|v: u64| #[trigger] drops_version(plan, object_key, v);
        lemma_dropped_differs(db, plan, object_key, v);
        v
    } else {
        let (meta, key, value, now) = choose|
            m: VersionMeta,
            key: Seq<char>,
            value: Seq<char>,
            now: Seq<char>,
        | #[trigger]
            sets_value(plan, object_key, m, key, value, now) && (record_in(
                db,
                object_key,
                m.version,
            ) matches Some(b) && is_record_of(b, m));
        let m = choose|m: VersionMeta| #[trigger]
            with_metadata(meta, m, key, value, now) && writes_record(
                plan,
                version_key_of(object_key, meta.version),
                m,
            );
        lemma_rewritten_differs(db, plan, object_key, m);
        m.version
    }
}

proof fn lemma_dropped_differs(
    db: Map<Seq<char>, Seq<u8>>,
    plan: BatchPlan,
    object_key: Seq<char>,
    version: u64,
)
    requires
        drops_version(plan, object_key, version),
    ensures
        differ_in(db, plan_applied(db, plan), object_key, version),
        record_in(plan_applied(db, plan), object_key, version) is None,
{
    let after = plan_applied(db, plan);
    lemma_delete_one(db, plan, version_key_of(object_key, version));
    lemma_record_removed(db, object_key, version, object_key);
    assert forall|other: Seq<char>| other != object_key implies #[trigger] counter_in(after, other)
        == counter_in(db, other) by {
        lemma_record_removed(db, object_key, version, other);
    }
    assert forall|other: Seq<char>, w: u64|
        other != object_key || w != version implies #[trigger] record_in(after, other, w)
        == record_in(db, other, w) by {
        lemma_record_removed(db, object_key, version, other);
    }
}

proof fn lemma_counted_differs(
    db: Map<Seq<char>, Seq<u8>>,
    plan: BatchPlan,
    object_key: Seq<char>,
    version: u64,
)
    requires
        counts_to(plan, object_key, version),
        version >= counter_in(db, object_key),
    ensures
        differ_in(db, plan_applied(db, plan), object_key, version),
        counter_in(plan_applied(db, plan), object_key) == version,
        forall|w: u64| #[trigger]
            record_in(plan_applied(db, plan), object_key, w) == record_in(db, object_key, w),
{
    let after = plan_applied(db, plan);
    lemma_put_one(db, plan, counter_key_of(object_key), le_bytes(version as nat, 8));
    lemma_counter_set(db, object_key, version, object_key);
    assert forall|other: Seq<char>| other != object_key implies #[trigger] counter_in(after, other)
        == counter_in(db, other) by {
        lemma_counter_set(db, object_key, version, other);
    }
    assert forall|other: Seq<char>, w: u64|
        other != object_key || w != version implies #[trigger] record_in(after, other, w)
        == record_in(db, other, w) by {
        lemma_counter_set(db, object_key, version, other);
    }
}

proof fn lemma_pending_differs(
    db: Map<Seq<char>, Seq<u8>>,
    plan: BatchPlan,
    object_key: Seq<char>,
    m: VersionMeta,
)
    requires
        sets_pending(plan, object_key, m),
        m.version == counter_in(db, object_key),
    ensures
        differ_in(db, plan_applied(db, plan), object_key, m.version),
        record_in(plan_applied(db, plan), object_key, m.version) == Some(record_bytes(m)),
        counter_in(plan_applied(db, plan), object_key) == counter_in(db, object_key),
{
    let after = plan_applied(db, plan);
    lemma_pending_written(db, plan, object_key, m, object_key);
    assert forall|other: Seq<char>| other != object_key implies #[trigger] counter_in(after, other)
        == counter_in(db, other) by {
        lemma_pending_written(db, plan, object_key, m, other);
    }
    assert forall|other: Seq<char>, w: u64|
        other != object_key || w != m.version implies #[trigger] record_in(after, other, w)
        == record_in(db, other, w) by {
        lemma_pending_written(db, plan, object_key, m, other);
    }
}

/// The record that commits a version.
proof fn lemma_promoted_record(
    plan: BatchPlan,
    object_key: Seq<char>,
    version: u64,
    value: Seq<u8>,
    now: Seq<char>,
) -> (m: VersionMeta)
    requires
        can_promote(version, value),
        promotes(plan, object_key, version, value, now),
    ensures
        m.version == version,
        m.status == VersionStatus::Committed,
        writes_record(plan, version_key_of(object_key, version), m),
        exists|p: VersionMeta| #[trigger]
            is_record_of(value, p) && with_status_at(p, m, VersionStatus::Committed, now),
        is_json_len(m.metadata@, json_bytes(m).len()),
        json_bytes(m).len() <= u32::MAX ==> forall|q: VersionMeta| #[trigger]
            is_record_of(record_bytes(m), q) ==> same_meta(q, m),
{
    let (p, m) = choose|p: VersionMeta, m: VersionMeta|
        #![trigger is_record_of(value, p), writes_record(
            plan,
            version_key_of(object_key, version),
            m,
        )]
        is_record_of(value, p) && with_status_at(p, m, VersionStatus::Committed, now)
            && writes_record(plan, version_key_of(object_key, version), m) && is_json_len(
            m.metadata@,
            json_bytes(m).len(),
        ) && (json_bytes(m).len() <= u32::MAX ==> forall|q: VersionMeta| #[trigger]
            is_record_of(record_bytes(m), q) ==> same_meta(q, m));
    m
}

/// A write is read back. When the three steps of writing a version are done, that version is the
/// latest one on every set of replicas that hold them, with the metadata that was written, committed
/// at the time of its promotion; and every other version of every object is as it was.
///
/// What fits into a record is kept in full; the rest of this law holds whether it fits or not.
pub proof fn law_written_version_is_read_back(
    db: Map<Seq<char>, Seq<u8>>,
    counting: BatchPlan,
    writing: BatchPlan,
    promoting: BatchPlan,
    object_key: Seq<char>,
    meta: VersionMeta,
    now: Seq<char>,
    disks: Seq<DiskVersions>,
)
    requires
        is_history(db, object_key),
        meta.version == counter_in(db, object_key) + 1,
        meta.status == VersionStatus::Pending,
        counts_to(counting, object_key, meta.version),
        sets_pending(writing, object_key, meta),
        promotes(promoting, object_key, meta.version, record_bytes(meta), now),
        disks.len() > 0,
        forall|i: int|
            0 <= i < disks.len() ==> holds(
                #[trigger] disks[i],
                plan_applied(plan_applied(plan_applied(db, counting), writing), promoting),
                object_key,
            ),
    ensures
        ({
            let after = plan_applied(plan_applied(plan_applied(db, counting), writing), promoting);
            let latest = best_of(disks, disks.len() as int);
            &&& is_history(after, object_key)
            &&& latest is Some && number_in(latest.unwrap()) == meta.version
            &&& committed_in(after, object_key, meta.version) == latest
            &&& fits_record(meta) ==> is_json_len(
                meta.metadata@.insert("last-modified"@, now),
                encode_utf8(metadata_json(meta.metadata@.insert("last-modified"@, now))).len(),
            )
            &&& fits_record(meta) && encode_utf8(
                metadata_json(meta.metadata@.insert("last-modified"@, now)),
            ).len() <= u32::MAX ==> forall|q: VersionMeta| #[trigger]
                is_record_of(latest.unwrap(), q) ==> with_status_at(
                    meta,
                    q,
                    VersionStatus::Committed,
                    now,
                )
            &&& differ_in(db, after, object_key, meta.version)
        }),
{
    let v = meta.version;
    let value = record_bytes(meta);
    let counted = plan_applied(db, counting);
    let written = plan_applied(counted, writing);
    let after = plan_applied(written, promoting);
    lemma_record_head(meta);
    assert(can_promote(v, value));
    lemma_counted_differs(db, counting, object_key, v);
    assert(counts_to(counting, object_key, v));
    law_history_is_kept(db, counting, object_key, object_key);
    lemma_pending_differs(counted, writing, object_key, meta);
    assert(sets_pending(writing, object_key, meta));
    law_history_is_kept(counted, writing, object_key, object_key);
    let m = lemma_promoted_record(promoting, object_key, v, value, now);
    lemma_rewritten_differs(written, promoting, object_key, m);
    law_history_is_kept(written, promoting, object_key, object_key);
    lemma_record_head(m);
    assert(committed_in(after, object_key, v) == Some(record_bytes(m)));
    law_latest_is_highest_committed(disks, after, object_key);
    let latest = best_of(disks, disks.len() as int);
    lemma_best_of(disks, after, object_key, disks.len() as int);
    assert(number_in(latest.unwrap()) == v);
    assert forall|other: Seq<char>| other != object_key implies #[trigger] counter_in(after, other)
        == counter_in(db, other) by {
        assert(counter_in(after, other) == counter_in(written, other));
        assert(counter_in(written, other) == counter_in(counted, other));
    }
    assert forall|other: Seq<char>, w: u64|
        other != object_key || w != v implies #[trigger] record_in(after, other, w) == record_in(
        db,
        other,
        w,
    ) by {
        assert(record_in(after, other, w) == record_in(written, other, w));
        assert(record_in(written, other, w) == record_in(counted, other, w));
    }
    let p = choose|p: VersionMeta| #[trigger]
        is_record_of(value, p) && with_status_at(p, m, VersionStatus::Committed, now);
    if fits_record(meta) {
        assert(same_meta(p, meta));
        assert(m.metadata@ == meta.metadata@.insert("last-modified"@, now));
    }
    if fits_record(meta) && encode_utf8(
        metadata_json(meta.metadata@.insert("last-modified"@, now)),
    ).len() <= u32::MAX {
        assert(json_bytes(m).len() <= u32::MAX);
    }
}

/// Whether the data of two versions is described alike.
pub open spec fn same_data(a: VersionMeta, b: VersionMeta) -> bool {
    &&& a.data_size == b.data_size
    &&& a.chunk_checksums@ == b.chunk_checksums@
    &&& a.compression_level == b.compression_level
    &&& a.compressed_sizes@ == b.compressed_sizes@
}

/// Committing a version and changing its metadata leave its data where it is: what was written under
/// the one description is written under the other.
pub proof fn law_data_outlives_changes(
    k: nat,
    c: nat,
    meta: VersionMeta,
    changed: VersionMeta,
    data: Seq<u8>,
    shards: Seq<Seq<Seq<u8>>>,
    files: Seq<Seq<u8>>,
)
    requires
        is_written(k, c, meta, data, shards, files),
        (exists|now: Seq<char>| #[trigger]
            with_status_at(meta, changed, VersionStatus::Committed, now)) || (exists|
            key: Seq<char>,
            value: Seq<char>,
            now: Seq<char>,
        | #[trigger]
            with_metadata(meta, changed, key, value, now)),
    ensures
        same_data(meta, changed),
        is_written(k, c, changed, data, shards, files),
{
    assert(same_data(meta, changed));
    assert forall|i: int| 0 <= i < shards.len() implies #[trigger] is_chunk_encoding(
        k,
        c,
        changed.compression_level,
        chunk_of(data, i),
        shards[i],
    ) && changed.chunk_checksums@[i] == xxh3(chunk_of(data, i)) by {
        assert(is_chunk_encoding(
            k,
            c,
            meta.compression_level,
            chunk_of(data, i),
            shards[i],
        ));
    }
}

/// Startup settles a version that was left pending: promoted, it is committed; abandoned, it is
/// gone. All other versions are as they were.
pub proof fn law_pending_version_is_settled(
    db: Map<Seq<char>, Seq<u8>>,
    plan: BatchPlan,
    object_key: Seq<char>,
    version: u64,
    value: Seq<u8>,
)
    requires
        is_history(db, object_key),
        record_in(db, object_key, version) == Some(value),
        can_promote(version, value),
        drops_version(plan, object_key, version) || exists|now: Seq<char>| #[trigger]
            promotes(plan, object_key, version, value, now),
    ensures
        is_history(plan_applied(db, plan), object_key),
        if drops_version(plan, object_key, version) {
            record_in(plan_applied(db, plan), object_key, version) is None
        } else {
            committed_in(plan_applied(db, plan), object_key, version) is Some
        },
        differ_in(db, plan_applied(db, plan), object_key, version),
{
    law_history_is_kept(db, plan, object_key, object_key);
    if drops_version(plan, object_key, version) {
        lemma_dropped_differs(db, plan, object_key, version);
    } else {
        let now = choose|now: Seq<char>| #[trigger]
            promotes(plan, object_key, version, value, now);
        let m = lemma_promoted_record(plan, object_key, version, value, now);
        lemma_rewritten_differs(db, plan, object_key, m);
        lemma_record_head(m);
    }
}

/// A version that was deleted is not read as the latest one: that is a lower version, or there is
/// none.
pub proof fn law_deleted_version_is_not_read(
    db: Map<Seq<char>, Seq<u8>>,
    plan: BatchPlan,
    object_key: Seq<char>,
    version: u64,
    value: Seq<u8>,
    disks: Seq<DiskVersions>,
)
    requires
        is_history(db, object_key),
        record_in(db, object_key, version) == Some(value),
        marks_deleted(plan, object_key, version, value),
        disks.len() > 0,
        forall|i: int|
            0 <= i < disks.len() ==> holds(#[trigger] disks[i], plan_applied(db, plan), object_key),
    ensures
        committed_in(plan_applied(db, plan), object_key, version) is None,
        best_of(disks, disks.len() as int) matches Some(b) ==> number_in(b) != version,
        // The latest version that there was is no longer there.
        (forall|u: u64|
            u > version ==> (#[trigger] committed_in(db, object_key, u)) is None) ==> (best_of(
            disks,
            disks.len() as int,
        ) matches Some(b) ==> number_in(b) < version),
        differ_in(db, plan_applied(db, plan), object_key, version),
{
    let after = plan_applied(db, plan);
    let m = lemma_deleted_record(db, plan, object_key, version, value);
    lemma_rewritten_differs(db, plan, object_key, m);
    lemma_record_head(m);
    law_history_is_kept(db, plan, object_key, object_key);
    lemma_best_of(disks, after, object_key, disks.len() as int);
    if let Some(b) = best_of(disks, disks.len() as int) {
        let n = number_in(b) as u64;
        if n > version {
            assert(record_in(after, object_key, n) == record_in(db, object_key, n));
            assert(committed_in(db, object_key, n) is Some);
        }
    }
}

/// Deleting a bucket removes that bucket and leaves all others, and all versions of all objects, as
/// they are.
pub proof fn law_deleted_bucket_is_gone(
    db: Map<Seq<char>, Seq<u8>>,
    plan: BatchPlan,
    name: Seq<char>,
)
    requires
        plan.puts@.len() == 0,
        texts(plan.deletes@) == seq![bucket_key_of(name)],
    ensures
        !plan_applied(db, plan).contains_key(bucket_key_of(name)),
        forall|other: Seq<char>|
            other != name ==> (#[trigger] bucket_in(plan_applied(db, plan), other)) == bucket_in(
                db,
                other,
            ),
        forall|object_key: Seq<char>, v: u64| #[trigger]
            record_in(plan_applied(db, plan), object_key, v) == record_in(db, object_key, v),
        forall|object_key: Seq<char>| #[trigger]
            counter_in(plan_applied(db, plan), object_key) == counter_in(db, object_key),
{
    let after = plan_applied(db, plan);
    let key = bucket_key_of(name);
    lemma_delete_one(db, plan, key);
    reveal_strlit("bkt:");
    reveal_strlit("ver:");
    reveal_strlit("obj:meta:");
    assert(key[0] == 'b');
    assert forall|other: Seq<char>| other != name implies (#[trigger] bucket_in(after, other))
        == bucket_in(db, other) by {
        if bucket_key_of(other) == key {
            assert(other =~= bucket_key_of(other).skip(4));
            assert(name =~= key.skip(4));
        }
    }
    assert forall|object_key: Seq<char>, v: u64| #[trigger]
        record_in(after, object_key, v) == record_in(db, object_key, v) by {
        assert(version_key_of(object_key, v)[0] == 'v');
    }
    assert forall|object_key: Seq<char>| #[trigger]
        counter_in(after, object_key) == counter_in(db, object_key) by {
        assert(counter_key_of(object_key)[0] == 'o');
    }
}

/// What a database holds of a bucket.
pub open spec fn bucket_in(db: Map<Seq<char>, Seq<u8>>, name: Seq<char>) -> Option<Seq<u8>> {
    let key = bucket_key_of(name);
    if db.contains_key(key) {
        Some(db[key])
    } else {
        None
    }
}

/// Whether `after` is what startup makes of a database for one version: nothing where the version
/// is kept, and else what the plan that it asks for does.
pub open spec fn is_started(
    db: Map<Seq<char>, Seq<u8>>,
    after: Map<Seq<char>, Seq<u8>>,
    action: RecoveryAction,
    object_key: Seq<char>,
    version: u64,
    value: Seq<u8>,
) -> bool {
    match action {
        RecoveryAction::Keep => after == db,
        RecoveryAction::Promote => exists|plan: BatchPlan, now: Seq<char>| #[trigger]
            promotes(plan, object_key, version, value, now) && after == plan_applied(db, plan),
        RecoveryAction::Abandon => exists|plan: BatchPlan| #[trigger]
            drops_version(plan, object_key, version) && after == plan_applied(db, plan),
    }
}

/// Startup leaves every committed version committed, of every object, whatever is missing of its
/// data, and settles the version that it looks at: a pending one is committed if its data is fully
/// on disk and gone if it is not, and any other is as it was.
pub proof fn law_startup_keeps_committed_versions(
    db: Map<Seq<char>, Seq<u8>>,
    after: Map<Seq<char>, Seq<u8>>,
    object_key: Seq<char>,
    meta: VersionMeta,
    value: Seq<u8>,
    complete: bool,
    other: Seq<char>,
    w: u64,
)
    requires
        is_history(db, object_key),
        record_in(db, object_key, meta.version) == Some(value),
        is_record_of(value, meta),
        is_started(
            db,
            after,
            recovery_of(meta.status, complete),
            object_key,
            meta.version,
            value,
        ),
    ensures
        committed_in(db, other, w) is Some ==> committed_in(after, other, w) == committed_in(
            db,
            other,
            w,
        ),
        meta.status != VersionStatus::Pending ==> after == db,
        meta.status == VersionStatus::Pending && complete ==> committed_in(
            after,
            object_key,
            meta.version,
        ) is Some,
        meta.status == VersionStatus::Pending && !complete ==> record_in(
            after,
            object_key,
            meta.version,
        ) is None,
{
    let version = meta.version;
    assert(is_record(value) && number_in(value) == version);
    if meta.status == VersionStatus::Pending {
        assert(can_promote(version, value));
        let plan = if complete {
            let (plan, now) = choose|plan: BatchPlan, now: Seq<char>| #[trigger]
                promotes(plan, object_key, version, value, now) && after == plan_applied(db, plan);
            assert(!drops_version(plan, object_key, version)) by {
                assert(put_pairs(plan.puts@).len() == 1);
            }
            plan
        } else {
            choose|plan: BatchPlan| #[trigger]
                drops_version(plan, object_key, version) && after == plan_applied(db, plan)
        };
        law_pending_version_is_settled(db, plan, object_key, version, value);
        if committed_in(db, other, w) is Some {
            assert(other != object_key || w != version);
            assert(record_in(after, other, w) == record_in(db, other, w));
        }
    }
}

/// Only a pending version can be promoted, and only under its own number: no other write, and no
/// version that is committed or deleted, is taken for it.
pub proof fn law_only_a_pending_version_is_promoted(version: u64, meta: VersionMeta)
    ensures
        can_promote(version, record_bytes(meta)) <==> meta.status == VersionStatus::Pending
            && meta.version == version,
{
    lemma_record_head(meta);
}

/// The record that is written for a version holds all that the version says.
pub proof fn law_written_record_holds_every_field(
    plan: BatchPlan,
    object_key: Seq<char>,
    meta: VersionMeta,
    read: VersionMeta,
)
    requires
        sets_pending(plan, object_key, meta),
        fits_record(meta),
        is_record_of(put_pairs(plan.puts@)[0].1, read),
    ensures
        read.version == meta.version,
        read.status == meta.status,
        read.checksum == meta.checksum,
        read.data_size == meta.data_size,
        read.chunk_checksums@ == meta.chunk_checksums@,
        read.last_modified@ == meta.last_modified@,
        read.metadata@ == meta.metadata@,
        read.compression_level == meta.compression_level,
        read.compressed_sizes@ == meta.compressed_sizes@,
{
    assert(put_pairs(plan.puts@)[0].1 == record_bytes(meta));
    assert(same_meta(read, meta));
}

/// Marking a version as deleted changes its status and nothing else of what it says.
pub proof fn law_deleting_changes_the_status_only(
    plan: BatchPlan,
    object_key: Seq<char>,
    version: u64,
    value: Seq<u8>,
    before: VersionMeta,
    read: VersionMeta,
)
    requires
        marks_deleted(plan, object_key, version, value),
        is_record_of(value, before),
        is_record_of(put_pairs(plan.puts@)[0].1, read),
        encode_utf8(metadata_json(before.metadata@)).len() <= u32::MAX,
    ensures
        read.status == VersionStatus::Deleted,
        read.version == before.version,
        read.checksum == before.checksum,
        read.data_size == before.data_size,
        read.chunk_checksums@ == before.chunk_checksums@,
        read.metadata@ == before.metadata@,
        read.compression_level == before.compression_level,
{
    let (p, m) = choose|p: VersionMeta, m: VersionMeta|
        #![trigger is_record_of(value, p), record_bytes(m)]
        is_record_of(value, p) && with_status(p, m, VersionStatus::Deleted) && plan.deletes@.len()
            == 0 && put_pairs(plan.puts@) == seq![
            (version_key_of(object_key, version), record_bytes(m)),
        ] && (json_bytes(m).len() <= u32::MAX ==> forall|q: VersionMeta| #[trigger]
            is_record_of(record_bytes(m), q) ==> same_meta(q, m));
    assert(put_pairs(plan.puts@)[0].1 == record_bytes(m));
    assert(same_meta(read, m));
    assert(nats_of_u128(p.chunk_checksums@) == nats_of_u128(before.chunk_checksums@));
    assert(p.chunk_checksums@ =~= before.chunk_checksums@) by {
        assert(nats_of_u128(p.chunk_checksums@).len() == nats_of_u128(
            before.chunk_checksums@,
        ).len());
        assert forall|i: int| 0 <= i < p.chunk_checksums@.len() implies p.chunk_checksums@[i]
            == before.chunk_checksums@[i] by {
            assert(nats_of_u128(p.chunk_checksums@)[i] == nats_of_u128(
                before.chunk_checksums@,
            )[i]);
        }
    }
}

/// A bucket that was created is there from then on, with the time of its creation. All other
/// buckets, and all versions of all objects, are as they were.
pub proof fn law_created_bucket_is_there(
    db: Map<Seq<char>, Seq<u8>>,
    plan: BatchPlan,
    name: Seq<char>,
    now: Seq<char>,
)
    requires
        plan.deletes@.len() == 0,
        put_pairs(plan.puts@) == seq![(bucket_key_of(name), encode_utf8(now))],
    ensures
        bucket_in(plan_applied(db, plan), name) == Some(encode_utf8(now)),
        forall|other: Seq<char>|
            other != name ==> (#[trigger] bucket_in(plan_applied(db, plan), other)) == bucket_in(
                db,
                other,
            ),
        forall|object_key: Seq<char>, v: u64| #[trigger]
            record_in(plan_applied(db, plan), object_key, v) == record_in(db, object_key, v),
        forall|object_key: Seq<char>| #[trigger]
            counter_in(plan_applied(db, plan), object_key) == counter_in(db, object_key),
{
    let after = plan_applied(db, plan);
    let key = bucket_key_of(name);
    lemma_put_one(db, plan, key, encode_utf8(now));
    reveal_strlit("bkt:");
    reveal_strlit("ver:");
    reveal_strlit("obj:meta:");
    assert(key[0] == 'b');
    assert forall|other: Seq<char>| other != name implies (#[trigger] bucket_in(after, other))
        == bucket_in(db, other) by {
        if bucket_key_of(other) == key {
            assert(other =~= bucket_key_of(other).skip(4));
            assert(name =~= key.skip(4));
        }
    }
    assert forall|object_key: Seq<char>, v: u64| #[trigger]
        record_in(after, object_key, v) == record_in(db, object_key, v) by {
        assert(version_key_of(object_key, v)[0] == 'v');
    }
    assert forall|object_key: Seq<char>| #[trigger]
        counter_in(after, object_key) == counter_in(db, object_key) by {
        assert(counter_key_of(object_key)[0] == 'o');
    }
}

} // verus!
