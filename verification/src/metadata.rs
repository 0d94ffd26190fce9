//! Replicated metadata store: one key-value database per disk, with automatic repair.
//!
//! This module decides what is read from and written to the databases and what the outcomes mean;
//! the databases themselves are behind the caller. On writes, a batch goes to all healthy disks;
//! a disk that refuses it is marked as failed and tried once more. On reads, the first healthy
//! disk that has the key decides, and the value is written to failed disks. A disk is considered
//! failed from the time a write to it returned an error until a repair of it succeeds.
use crate::config::Config;
use crate::errors::{StorageError, StorageResult};
use crate::text::{
    chars_of, decimal_string, join2, join3, owned, rfind_char, string_of, strip_prefix,
};
use vstd::prelude::*;

verus! {

use crate::text::{decimal, digit_char, digit_value, digits_value, parsed};

/// Separator between object key and version in internal keys: the ASCII unit separator, which
/// does not appear in object keys.
pub const SEP: char = '\x1f';

/// The key of a version's record.
pub open spec fn version_key_of(object_key: Seq<char>, version: u64) -> Seq<char> {
    "ver:"@ + object_key + seq![SEP] + decimal(version as nat)
}

/// The key of an object's version counter.
pub open spec fn counter_key_of(object_key: Seq<char>) -> Seq<char> {
    "obj:meta:"@ + object_key
}

/// The key of a bucket.
pub open spec fn bucket_key_of(name: Seq<char>) -> Seq<char> {
    "bkt:"@ + name
}

/// The prefix of the keys of all versions of objects whose key starts with `prefix`.
pub open spec fn scan_prefix_of(prefix: Seq<char>) -> Seq<char> {
    "ver:"@ + prefix
}

/// The key of a version's record.
pub fn version_key(object_key: &str, version: u64) -> (r: String)
    ensures
        r@ == version_key_of(object_key@, version),
{
    let mut r = join2("ver:", object_key);
    r.push(SEP);
    r.append(decimal_string(version as u128).as_str());
    assert(r@ =~= version_key_of(object_key@, version));
    r
}

/// The key of an object's version counter.
pub fn counter_key(object_key: &str) -> (r: String)
    ensures
        r@ == counter_key_of(object_key@),
{
    join2("obj:meta:", object_key)
}

/// The key of a bucket.
pub fn bucket_key(name: &str) -> (r: String)
    ensures
        r@ == bucket_key_of(name@),
{
    join2("bkt:", name)
}

/// The prefix of the keys of all versions of objects whose key starts with `prefix`.
pub fn scan_prefix(prefix: &str) -> (r: String)
    ensures
        r@ == scan_prefix_of(prefix@),
{
    join2("ver:", prefix)
}

/// The position of the last separator in `key`, if there is one.
pub open spec fn last_sep(key: Seq<char>) -> Option<int>
    decreases key.len(),
{
    if key.len() == 0 {
        None
    } else if key.last() == SEP {
        Some(key.len() - 1)
    } else {
        last_sep(key.drop_last())
    }
}

/// `key` without the prefix of version keys, if it has it.
pub open spec fn without_ver(key: Seq<char>) -> Option<Seq<char>> {
    if "ver:"@.is_prefix_of(key) {
        Some(key.skip("ver:"@.len() as int))
    } else {
        None
    }
}

/// The object key in the key of a version's record.
pub open spec fn object_key_in(key: Seq<char>) -> Seq<char> {
    let head = match last_sep(key) {
        Some(i) => key.take(i),
        None => key,
    };
    match without_ver(head) {
        Some(object_key) => object_key,
        None => key,
    }
}

proof fn lemma_last_sep(key: Seq<char>, i: int)
    requires
        0 <= i < key.len(),
        key[i] == SEP,
        !key.skip(i + 1).contains(SEP),
    ensures
        last_sep(key) == Some(i),
    decreases key.len(),
{
    if i < key.len() - 1 {
        assert(key.last() != SEP) by {
            assert(key.skip(i + 1)[key.len() - i - 2] == key.last());
        }
        assert(!key.drop_last().skip(i + 1).contains(SEP)) by {
            let rest = key.drop_last().skip(i + 1);
            if rest.contains(SEP) {
                let j = choose|j: int| 0 <= j < rest.len() && #[trigger] rest[j] == SEP;
                assert(key.skip(i + 1)[j] == SEP);
            }
        }
        lemma_last_sep(key.drop_last(), i);
    }
}

proof fn lemma_no_sep(key: Seq<char>)
    requires
        !key.contains(SEP),
    ensures
        last_sep(key) is None,
    decreases key.len(),
{
    if key.len() > 0 {
        assert(key[key.len() - 1] != SEP);
        assert(!key.drop_last().contains(SEP)) by {
            let rest = key.drop_last();
            if rest.contains(SEP) {
                let j = choose|j: int| 0 <= j < rest.len() && #[trigger] rest[j] == SEP;
                assert(key[j] == SEP);
            }
        }
        lemma_no_sep(key.drop_last());
    }
}

/// The object key in the key of a version's record.
pub fn object_key_of(key: &str) -> (r: String)
    ensures
        r@ == object_key_in(key@),
{
    let v = chars_of(key);
    let head: String = match rfind_char(v.as_slice(), SEP) {
        Some(i) => {
            proof {
                lemma_last_sep(key@, i as int);
            }
            let h = string_of(&v.as_slice()[0..i]);
            assert(h@ =~= key@.take(i as int));
            h
        },
        None => {
            proof {
                lemma_no_sep(key@);
            }
            owned(key)
        },
    };
    match strip_prefix(head.as_str(), "ver:") {
        Some(object_key) => object_key,
        None => owned(key),
    }
}

pub proof fn lemma_decimal_digits(n: nat)
    ensures
        decimal(n).len() > 0,
        digits_value(decimal(n), 10) == Some(n),
        forall|i: int| 0 <= i < decimal(n).len() ==> '0' <= #[trigger] decimal(n)[i] <= '9',
    decreases n,
{
    assert forall|d: nat| d < 10 implies '0' <= #[trigger] digit_char(d) <= '9' && digit_value(
        digit_char(d),
        10,
    ) == Some(d) by {}
    if n < 10 {
        let s = decimal(n);
        assert(s.drop_last() =~= Seq::empty());
        assert(s.last() == digit_char(n));
        assert(digits_value(s.drop_last(), 10) == Some(0nat));
    } else {
        lemma_decimal_digits(n / 10);
        let s = decimal(n);
        let head = decimal(n / 10);
        assert(s.drop_last() =~= head);
        assert(s.last() == digit_char(n % 10));
        assert forall|i: int| 0 <= i < s.len() implies '0' <= #[trigger] s[i] <= '9' by {
            if i < head.len() {
                assert(s[i] == head[i]);
            }
        }
    }
}

/// Reading a decimal number gives the number that was written.
pub proof fn law_decimal_is_read_back(n: u64)
    ensures
        parsed(decimal(n as nat), 10) == Some(n),
{
    lemma_decimal_digits(n as nat);
}

proof fn lemma_version_key_sep(object_key: Seq<char>, version: u64)
    ensures
        last_sep(version_key_of(object_key, version)) == Some(
            ("ver:"@.len() + object_key.len()) as int,
        ),
{
    let key = version_key_of(object_key, version);
    let digits = decimal(version as nat);
    let i = ("ver:"@.len() + object_key.len()) as int;
    lemma_decimal_digits(version as nat);
    assert(key[i] == SEP);
    assert(key.skip(i + 1) =~= digits);
    assert(!digits.contains(SEP)) by {
        if digits.contains(SEP) {
            let j = choose|j: int| 0 <= j < digits.len() && digits[j] == SEP;
            assert('0' <= digits[j] <= '9');
        }
    }
    lemma_last_sep(key, i);
}

/// The object key is found again in the key of a version's record, whatever characters it holds.
pub proof fn law_object_key_is_found_again(object_key: Seq<char>, version: u64)
    ensures
        object_key_in(version_key_of(object_key, version)) == object_key,
{
    let key = version_key_of(object_key, version);
    lemma_version_key_sep(object_key, version);
    let head = key.take(("ver:"@.len() + object_key.len()) as int);
    assert(head =~= "ver:"@ + object_key);
    assert(head.subrange(0, "ver:"@.len() as int) =~= "ver:"@);
    assert(head.skip("ver:"@.len() as int) =~= object_key);
}

/// No two versions, of one object or of two, share a record.
pub proof fn law_version_keys_are_distinct(k1: Seq<char>, v1: u64, k2: Seq<char>, v2: u64)
    requires
        version_key_of(k1, v1) == version_key_of(k2, v2),
    ensures
        k1 == k2,
        v1 == v2,
{
    law_object_key_is_found_again(k1, v1);
    law_object_key_is_found_again(k2, v2);
    let key = version_key_of(k1, v1);
    let i = ("ver:"@.len() + k1.len()) as int;
    assert(key.skip(i + 1) =~= decimal(v1 as nat));
    assert(key.skip(i + 1) =~= decimal(v2 as nat));
    lemma_decimal_digits(v1 as nat);
    lemma_decimal_digits(v2 as nat);
}

/// What reading a key from one disk gave.
#[derive(Debug)]
pub enum KvRead {
    /// The disk has the key.
    Value(Vec<u8>),
    /// The disk does not have the key.
    Missing,
    /// The read failed.
    Failed(String),
}

/// What to do next in a read.
pub enum ReadStep {
    /// Read the key from this disk.
    Next(usize),
    /// The read is done.
    Done(StorageResult<Vec<u8>>),
}

/// A batch for the databases of the target disks.
pub struct BatchPlan {
    /// The disks that the batch goes to.
    pub targets: Vec<usize>,
    /// The keys to set and their values.
    pub puts: Vec<(String, Vec<u8>)>,
    /// The keys to remove.
    pub deletes: Vec<String>,
}

/// The keys and values of a list of pairs.
pub open spec fn put_pairs(s: Seq<(String, Vec<u8>)>) -> Seq<(Seq<char>, Seq<u8>)> {
    Seq::new(s.len(), |i: int| (s[i].0@, s[i].1@))
}

/// The texts in a list of strings.
pub open spec fn texts(s: Seq<String>) -> Seq<Seq<char>> {
    Seq::new(s.len(), |i: int| s[i]@)
}

/// The indexes below `n` of the disks that are not marked as failed, in order.
pub open spec fn healthy_below(failed: Seq<bool>, n: int) -> Seq<usize>
    decreases n,
{
    if n <= 0 {
        Seq::empty()
    } else if failed[n - 1] {
        healthy_below(failed, n - 1)
    } else {
        healthy_below(failed, n - 1).push((n - 1) as usize)
    }
}

/// The indexes of the disks that are not marked as failed, in order.
pub open spec fn healthy(failed: Seq<bool>) -> Seq<usize> {
    healthy_below(failed, failed.len() as int)
}

/// The indexes below `n` of the disks that are marked as failed, in order.
pub open spec fn failed_below(failed: Seq<bool>, n: int) -> Seq<usize>
    decreases n,
{
    if n <= 0 {
        Seq::empty()
    } else if failed[n - 1] {
        failed_below(failed, n - 1).push((n - 1) as usize)
    } else {
        failed_below(failed, n - 1)
    }
}

/// The indexes of the disks that are marked as failed, in order.
pub open spec fn all_failed(failed: Seq<bool>) -> Seq<usize> {
    failed_below(failed, failed.len() as int)
}

/// The position of the first outcome that decides a read: a value or a failure.
pub open spec fn first_decisive(outcomes: Seq<KvRead>) -> Option<int>
    decreases outcomes.len(),
{
    if outcomes.len() == 0 {
        None
    } else {
        match first_decisive(outcomes.drop_last()) {
            Some(i) => Some(i),
            None => if outcomes.last() is Missing {
                None
            } else {
                Some(outcomes.len() - 1)
            },
        }
    }
}

pub proof fn lemma_healthy_below(failed: Seq<bool>, n: int)
    requires
        0 <= n <= failed.len() <= usize::MAX,
    ensures
        healthy_below(failed, n).len() <= n,
        forall|j: int|
            0 <= j < healthy_below(failed, n).len() ==> (#[trigger] healthy_below(failed, n)[j]) < n
                && !failed[healthy_below(failed, n)[j] as int],
        forall|i: int|
            0 <= i < n && !(#[trigger] failed[i]) ==> healthy_below(failed, n).contains(i as usize),
        forall|a: int, b: int|
            0 <= a < b < healthy_below(failed, n).len() ==> healthy_below(failed, n)[a]
                < healthy_below(failed, n)[b],
    decreases n,
{
    if n > 0 {
        lemma_healthy_below(failed, n - 1);
        let shorter = healthy_below(failed, n - 1);
        let here = healthy_below(failed, n);
        if !failed[n - 1] {
            assert forall|i: int| 0 <= i < n && !(#[trigger] failed[i]) implies here.contains(
                i as usize,
            ) by {
                if i < n - 1 {
                    let j = choose|j: int| 0 <= j < shorter.len() && shorter[j] == i as usize;
                    assert(here[j] == i as usize);
                } else {
                    assert(here[here.len() - 1] == i as usize);
                }
            }
        }
    }
}

/// The health of the metadata disks.
pub struct ReplicatedMetaStore {
    failed_disks: Vec<bool>,
    /// The disks that refused the batch that is being settled.
    refused_disks: Vec<usize>,
}

impl View for ReplicatedMetaStore {
    type V = Seq<bool>;

    /// For each disk, whether it is marked as failed.
    closed spec fn view(&self) -> Seq<bool> {
        self.failed_disks@
    }
}

impl ReplicatedMetaStore {
    /// The disks that were healthy and refused the batch that is being settled.
    pub closed spec fn refused(self) -> Seq<usize> {
        self.refused_disks@
    }

    /// The store of a configuration: as many disks as there are replicas, all of them healthy.
    pub fn new(config: &Config) -> (r: StorageResult<Self>)
        requires
            config.n() <= usize::MAX,
        ensures
            r is Ok <==> config.defect() is None,
            r matches Ok(store) ==> store@.len() == (if config.metadata_replicas == 0
                || config.metadata_replicas >= config.n() {
                config.n()
            } else {
                config.metadata_replicas as nat
            }) && store.refused().len() == 0 && forall|i: int|
                0 <= i < store@.len() ==> !(#[trigger] store@[i]),
            r matches Err(e) ==> e matches StorageError::Transient(m) && m@
                == config.defect().unwrap(),
    {
        match config.validate() {
            Ok(()) => {},
            Err(m) => {
                return Err(StorageError::Transient(m));
            },
        }
        let n: usize = config.effective_replicas();
        let mut failed_disks: Vec<bool> = Vec::new();
        let mut i: usize = 0;
        while i < n
            invariant
                i <= n,
                failed_disks@.len() == i,
                forall|j: int| 0 <= j < i ==> !(#[trigger] failed_disks@[j]),
            decreases n - i,
        {
            failed_disks.push(false);
            i += 1;
        }
        Ok(ReplicatedMetaStore { failed_disks, refused_disks: Vec::new() })
    }

    /// The directory of the database on a disk.
    pub fn database_path(disk_path: &str) -> (r: String)
        ensures
            r@ == disk_path@ + "/metadata"@,
    {
        join2(disk_path, "/metadata")
    }

    /// The indexes of the healthy disks, in order.
    pub fn healthy_indexes(&self) -> (r: Vec<usize>)
        ensures
            r@ == healthy(self@),
    {
        let mut r: Vec<usize> = Vec::new();
        let mut i: usize = 0;
        while i < self.failed_disks.len()
            invariant
                i <= self.failed_disks@.len(),
                r@ == healthy_below(self.failed_disks@, i as int),
            decreases self.failed_disks.len() - i,
        {
            if !self.failed_disks[i] {
                r.push(i);
            }
            i += 1;
        }
        r
    }

    /// Get the number of healthy disks.
    pub fn healthy_disk_count(&self) -> (r: usize)
        ensures
            r == healthy(self@).len(),
    {
        self.healthy_indexes().len()
    }

    /// Get the total number of disks.
    pub fn total_disk_count(&self) -> (r: usize)
        ensures
            r == self@.len(),
    {
        self.failed_disks.len()
    }

    /// Check if more than half of the disks are healthy.
    pub fn is_safe(&self) -> (r: bool)
        ensures
            r == (healthy(self@).len() > self@.len() / 2),
    {
        self.healthy_disk_count() > self.total_disk_count() / 2
    }

    /// What to do next in reading a key, after the healthy disks gave `outcomes`, in order. The
    /// first disk that has the key decides; a failed read ends the search.
    pub fn read_from_healthy(&self, outcomes: &[KvRead]) -> (r: ReadStep)
        requires
            outcomes@.len() <= healthy(self@).len(),
        ensures
            match first_decisive(outcomes@) {
                Some(i) => match outcomes@[i] {
                    KvRead::Value(v) => r matches ReadStep::Done(Ok(w)) && w@ == v@,
                    KvRead::Failed(m) => r matches ReadStep::Done(Err(e))
                        && e matches StorageError::KvError(t) && t@ == "read from disk "@ + decimal(
                        healthy(self@)[i] as nat,
                    ) + ": "@ + m@,
                    KvRead::Missing => false,
                },
                None => if outcomes@.len() < healthy(self@).len() {
                    r matches ReadStep::Next(d) && d == healthy(self@)[outcomes@.len() as int]
                } else {
                    r matches ReadStep::Done(Err(e)) && e matches StorageError::NotFound(t) && t@
                        == "key not found on any healthy disk"@
                },
            },
    {
        let healthy_disks = self.healthy_indexes();
        let mut i: usize = 0;
        assert(outcomes@.take(0) =~= Seq::empty());
        while i < outcomes.len()
            invariant
                i <= outcomes@.len() <= healthy_disks@.len(),
                healthy_disks@ == healthy(self@),
                first_decisive(outcomes@.take(i as int)) is None,
            decreases outcomes.len() - i,
        {
            proof {
                assert(outcomes@.take(i + 1).drop_last() =~= outcomes@.take(i as int));
                lemma_first_decisive_prefix(outcomes@, i + 1);
            }
            match &outcomes[i] {
                KvRead::Value(v) => {
                    let copy: Vec<u8> = v.clone();
                    assert(copy@ =~= v@);
                    return ReadStep::Done(Ok(copy));
                },
                KvRead::Failed(m) => {
                    let mut t = join3(
                        "read from disk ",
                        decimal_string(healthy_disks[i] as u128).as_str(),
                        ": ",
                    );
                    t.append(m.as_str());
                    return ReadStep::Done(Err(StorageError::KvError(t)));
                },
                KvRead::Missing => {},
            }
            i += 1;
        }
        assert(outcomes@.take(outcomes@.len() as int) =~= outcomes@);
        if outcomes.len() < healthy_disks.len() {
            ReadStep::Next(healthy_disks[outcomes.len()])
        } else {
            ReadStep::Done(
                Err(StorageError::NotFound("key not found on any healthy disk".to_owned())),
            )
        }
    }

    /// Plan a batch that sets keys on all healthy disks.
    pub fn write_batch(&self, batch_ops: Vec<(String, Vec<u8>)>) -> (r: StorageResult<BatchPlan>)
        ensures
            r is Ok <==> healthy(self@).len() > 0,
            r matches Ok(plan) ==> plan.targets@ == healthy(self@) && plan.puts@ == batch_ops@
                && plan.deletes@.len() == 0,
            r matches Err(e) ==> e is NoHealthyDisks,
    {
        let targets = self.healthy_indexes();
        if targets.len() == 0 {
            return Err(StorageError::NoHealthyDisks);
        }
        Ok(BatchPlan { targets, puts: batch_ops, deletes: Vec::new() })
    }

    /// Plan a batch that removes keys from all healthy disks.
    pub fn delete_keys(&self, keys: Vec<String>) -> (r: StorageResult<BatchPlan>)
        ensures
            r is Ok <==> healthy(self@).len() > 0,
            r matches Ok(plan) ==> plan.targets@ == healthy(self@) && plan.deletes@ == keys@
                && plan.puts@.len() == 0,
            r matches Err(e) ==> e is NoHealthyDisks,
    {
        let targets = self.healthy_indexes();
        if targets.len() == 0 {
            return Err(StorageError::NoHealthyDisks);
        }
        Ok(BatchPlan { targets, puts: Vec::new(), deletes: keys })
    }

    /// Take in which of the healthy disks, in order, accepted a batch. Those that did not are
    /// marked as failed. If none did, the batch failed; otherwise the result is all failed disks,
    /// those that failed before among them: the batch is pushed to each of them.
    pub fn settle_batch(&mut self, accepted: &[bool]) -> (r: StorageResult<Vec<usize>>)
        requires
            accepted@.len() == healthy(old(self)@).len(),
        ensures
            final(self)@ == marked(old(self)@, refusing(healthy(old(self)@), accepted@)),
            final(self).refused() == refusing(healthy(old(self)@), accepted@),
            r is Ok <==> accepted@.contains(true),
            r matches Ok(v) ==> v@ == all_failed(final(self)@),
            r matches Err(e) ==> e is NoHealthyDisks,
    {
        let targets = self.healthy_indexes();
        let mut refused: Vec<usize> = Vec::new();
        let mut any: bool = false;
        let mut i: usize = 0;
        let ghost before = self@;
        proof {
            assert(self.failed_disks.len() == before.len());
            lemma_healthy_below(before, before.len() as int);
            assert(targets@.take(0) =~= Seq::empty());
            assert(accepted@.take(0) =~= Seq::empty());
            assert(marked(before, Seq::empty()) =~= before);
        }
        while i < targets.len()
            invariant
                i <= targets@.len(),
                targets@ == healthy(before),
                accepted@.len() == targets@.len(),
                before.len() == self.failed_disks.len(),
                forall|j: int| 0 <= j < targets@.len() ==> (#[trigger] targets@[j]) < before.len(),
                refused@ == refusing(targets@.take(i as int), accepted@.take(i as int)),
                self.failed_disks@ == marked(before, refused@),
                any == accepted@.take(i as int).contains(true),
            decreases targets.len() - i,
        {
            proof {
                assert(targets@.take(i + 1).drop_last() =~= targets@.take(i as int));
                assert(accepted@.take(i + 1).drop_last() =~= accepted@.take(i as int));
                assert(accepted@.take(i + 1).last() == accepted@[i as int]);
                assert(accepted@.take(i + 1).contains(true) == (accepted@.take(i as int).contains(
                    true,
                ) || accepted@[i as int])) by {
                    let s = accepted@.take(i + 1);
                    if accepted@.take(i as int).contains(true) {
                        let shorter = accepted@.take(i as int);
                        let j = choose|j: int| 0 <= j < i && #[trigger] shorter[j] == true;
                        assert(s[j] == true);
                    }
                    if accepted@[i as int] {
                        assert(s[i as int] == true);
                    }
                    if s.contains(true) {
                        let j = choose|j: int| 0 <= j < s.len() && s[j] == true;
                        if j < i {
                            assert(accepted@.take(i as int)[j] == true);
                        }
                    }
                }
            }
            if accepted[i] {
                any = true;
            } else {
                let d: usize = targets[i];
                let ghost earlier = refused@;
                refused.push(d);
                self.failed_disks.set(d, true);
                assert(self.failed_disks@ =~= marked(before, refused@)) by {
                    assert forall|m: int| 0 <= m < before.len() implies (before[m]
                        || refused@.contains(m as usize)) == (if m == d {
                        true
                    } else {
                        before[m] || earlier.contains(m as usize)
                    }) by {
                        lemma_push_contains(earlier, d, m as usize);
                    }
                }
            }
            i += 1;
        }
        assert(targets@.take(targets@.len() as int) =~= targets@);
        assert(accepted@.take(accepted@.len() as int) =~= accepted@);
        self.refused_disks = refused;
        if any {
            Ok(self.failed_indexes())
        } else {
            Err(StorageError::NoHealthyDisks)
        }
    }

    /// Take in which disks accepted the batch that is being settled after all. Those that were
    /// healthy before the batch are healthy again. A disk that failed earlier lacks other batches
    /// and stays failed until it is recovered.
    pub fn settle_repairs(&mut self, repaired: &[usize])
        requires
            forall|i: int| 0 <= i < repaired@.len() ==> (#[trigger] repaired@[i]) < old(self)@.len(),
        ensures
            final(self)@ == restored(old(self)@, old(self).refused(), repaired@),
            final(self).refused().len() == 0,
    {
        let ghost before = self@;
        let ghost refused = self.refused();
        let mut i: usize = 0;
        assert(repaired@.take(0) =~= Seq::empty());
        assert(restored(before, refused, Seq::empty()) =~= before);
        while i < repaired.len()
            invariant
                i <= repaired@.len(),
                before.len() == self.failed_disks.len(),
                refused == self.refused_disks@,
                forall|j: int|
                    0 <= j < repaired@.len() ==> (#[trigger] repaired@[j]) < before.len(),
                self.failed_disks@ == restored(before, refused, repaired@.take(i as int)),
            decreases repaired.len() - i,
        {
            let d: usize = repaired[i];
            let is_refused: bool = holds_index(self.refused_disks.as_slice(), d);
            if is_refused {
                self.failed_disks.set(d, false);
            }
            proof {
                let earlier = repaired@.take(i as int);
                assert(repaired@.take(i + 1) =~= earlier.push(d));
                assert forall|m: int| 0 <= m < before.len() implies self.failed_disks@[m]
                    == restored(before, refused, repaired@.take(i + 1))[m] by {
                    lemma_push_contains(earlier, d, m as usize);
                }
                assert(self.failed_disks@ =~= restored(before, refused, repaired@.take(i + 1)));
            }
            i += 1;
        }
        assert(repaired@.take(repaired@.len() as int) =~= repaired@);
        self.refused_disks = Vec::new();
    }

    /// The failed disks, to which a read pushes the value that it found and a write what it wrote.
    pub fn failed_indexes(&self) -> (r: Vec<usize>)
        ensures
            r@ == all_failed(self@),
            forall|i: int| 0 <= i < r@.len() ==> (#[trigger] r@[i]) < self@.len(),
    {
        let mut r: Vec<usize> = Vec::new();
        let mut i: usize = 0;
        while i < self.failed_disks.len()
            invariant
                i <= self.failed_disks@.len(),
                r@ == failed_below(self.failed_disks@, i as int),
                forall|j: int| 0 <= j < r@.len() ==> (#[trigger] r@[j]) < i,
            decreases self.failed_disks.len() - i,
        {
            if self.failed_disks[i] {
                r.push(i);
            }
            i += 1;
        }
        r
    }

    /// Check that a disk can be recovered from another: they differ, the source is healthy and the
    /// recovering disk is one of the replicas.
    pub fn recover_disk(&self, recovering_disk_idx: usize, source_disk_idx: usize) -> (r:
        StorageResult<()>)
        ensures
            r is Ok <==> recovering_disk_idx != source_disk_idx && source_disk_idx < self@.len()
                && !self@[source_disk_idx as int] && recovering_disk_idx < self@.len(),
            r matches Err(e) ==> e matches StorageError::Transient(m) && m@ == recovery_defect(
                self@,
                recovering_disk_idx,
                source_disk_idx,
            ),
    {
        if recovering_disk_idx == source_disk_idx {
            return Err(
                StorageError::Transient("recovering disk cannot be the source disk".to_owned()),
            );
        }
        if source_disk_idx >= self.failed_disks.len() || self.failed_disks[source_disk_idx] {
            return Err(
                StorageError::Transient(
                    join3(
                        "source disk ",
                        decimal_string(source_disk_idx as u128).as_str(),
                        " is not healthy",
                    ),
                ),
            );
        }
        if recovering_disk_idx >= self.failed_disks.len() {
            return Err(
                StorageError::Transient(
                    join3(
                        "disk ",
                        decimal_string(recovering_disk_idx as u128).as_str(),
                        " not found",
                    ),
                ),
            );
        }
        Ok(())
    }

    /// The batches that make a disk a full copy of a healthy one: the first removes what the disk
    /// holds, the second sets what the healthy disk holds.
    pub fn recovery_plans(&self, source: Vec<(String, Vec<u8>)>, stale_keys: Vec<String>) -> (r: (
        BatchPlan,
        BatchPlan,
    ))
        ensures
            r.0.targets@.len() == 0 && r.0.puts@.len() == 0 && r.0.deletes@ == stale_keys@,
            r.1.targets@.len() == 0 && r.1.puts@ == source@ && r.1.deletes@.len() == 0,
    {
        (
            BatchPlan { targets: Vec::new(), puts: Vec::new(), deletes: stale_keys },
            BatchPlan { targets: Vec::new(), puts: source, deletes: Vec::new() },
        )
    }

    /// Take in that a disk holds all entries of a healthy disk again.
    pub fn finish_recovery(&mut self, recovered: usize)
        requires
            recovered < old(self)@.len(),
        ensures
            final(self)@ == old(self)@.update(recovered as int, false),
            final(self).refused() == old(self).refused(),
    {
        self.failed_disks.set(recovered, false);
    }
}

/// The disks of `targets` that did not accept a batch.
pub open spec fn refusing(targets: Seq<usize>, accepted: Seq<bool>) -> Seq<usize>
    decreases targets.len(),
{
    if targets.len() == 0 || accepted.len() == 0 {
        Seq::empty()
    } else if accepted.last() {
        refusing(targets.drop_last(), accepted.drop_last())
    } else {
        refusing(targets.drop_last(), accepted.drop_last()).push(targets.last())
    }
}

/// The failure marks with those of `disks` set.
pub open spec fn marked(failed: Seq<bool>, disks: Seq<usize>) -> Seq<bool> {
    Seq::new(failed.len(), |i: int| failed[i] || disks.contains(i as usize))
}

/// The failure marks with those cleared of the disks that refused a batch and then took it.
pub open spec fn restored(failed: Seq<bool>, refused: Seq<usize>, repaired: Seq<usize>) -> Seq<
    bool,
> {
    Seq::new(
        failed.len(),
        |i: int| failed[i] && !(refused.contains(i as usize) && repaired.contains(i as usize)),
    )
}

/// The failure marks after a batch: which of the healthy disks accepted it, and which disks took it
/// as a repair.
pub open spec fn failed_after(failed: Seq<bool>, accepted: Seq<bool>, repaired: Seq<usize>) -> Seq<
    bool,
> {
    let refused = refusing(healthy(failed), accepted);
    restored(marked(failed, refused), refused, repaired)
}

/// Whether every healthy disk holds the database `db`.
pub open spec fn agree(
    failed: Seq<bool>,
    dbs: Seq<Map<Seq<char>, Seq<u8>>>,
    db: Map<Seq<char>, Seq<u8>>,
) -> bool {
    dbs.len() == failed.len() && forall|d: int|
        0 <= d < failed.len() && !failed[d] ==> #[trigger] dbs[d] == db
}

/// Whether a list of disks holds a disk.
fn holds_index(disks: &[usize], d: usize) -> (r: bool)
    ensures
        r == disks@.contains(d),
{
    let mut i: usize = 0;
    while i < disks.len()
        invariant
            i <= disks@.len(),
            forall|j: int| 0 <= j < i ==> disks@[j] != d,
        decreases disks.len() - i,
    {
        if disks[i] == d {
            return true;
        }
        i += 1;
    }
    false
}

proof fn lemma_push_contains(s: Seq<usize>, x: usize, y: usize)
    ensures
        s.push(x).contains(y) == (s.contains(y) || x == y),
{
    if s.contains(y) {
        let j = choose|j: int| 0 <= j < s.len() && s[j] == y;
        assert(s.push(x)[j] == y);
    }
    if x == y {
        assert(s.push(x)[s.len() as int] == y);
    }
    if s.push(x).contains(y) {
        let j = choose|j: int| 0 <= j < s.push(x).len() && s.push(x)[j] == y;
        if j < s.len() {
            assert(s[j] == y);
        }
    }
}

pub proof fn lemma_first_decisive_prefix(outcomes: Seq<KvRead>, i: int)
    requires
        0 <= i <= outcomes.len(),
    ensures
        first_decisive(outcomes.take(i)) is Some ==> first_decisive(outcomes) == first_decisive(
            outcomes.take(i),
        ),
    decreases outcomes.len(),
{
    if i < outcomes.len() {
        lemma_first_decisive_prefix(outcomes.drop_last(), i);
        assert(outcomes.drop_last().take(i) =~= outcomes.take(i));
    } else {
        assert(outcomes.take(i) =~= outcomes);
    }
}

/// Why a disk cannot be recovered from another, where `failed` says which disks have failed.
pub open spec fn recovery_defect(failed: Seq<bool>, recovering: usize, source: usize) -> Seq<char> {
    if recovering == source {
        "recovering disk cannot be the source disk"@
    } else if !(source < failed.len() && !failed[source as int]) {
        "source disk "@ + decimal(source as nat) + " is not healthy"@
    } else {
        "disk "@ + decimal(recovering as nat) + " not found"@
    }
}

/// One batch: the keys that it sets, with their values, and the keys that it removes.
pub open spec fn batch_applied(
    db: Map<Seq<char>, Seq<u8>>,
    puts: Seq<(Seq<char>, Seq<u8>)>,
    deletes: Seq<Seq<char>>,
) -> Map<Seq<char>, Seq<u8>>
    decreases puts.len() + deletes.len(),
{
    if deletes.len() > 0 {
        batch_applied(db, puts, deletes.drop_last()).remove(deletes.last())
    } else if puts.len() > 0 {
        batch_applied(db, puts.drop_last(), deletes).insert(puts.last().0, puts.last().1)
    } else {
        db
    }
}

proof fn lemma_refusing(targets: Seq<usize>, accepted: Seq<bool>, i: int)
    requires
        targets.len() == accepted.len(),
        0 <= i < targets.len(),
        !accepted[i],
    ensures
        refusing(targets, accepted).contains(targets[i]),
    decreases targets.len(),
{
    let rest = refusing(targets.drop_last(), accepted.drop_last());
    if i < targets.len() - 1 {
        assert(targets.drop_last()[i] == targets[i]);
        lemma_refusing(targets.drop_last(), accepted.drop_last(), i);
        if !accepted.last() {
            lemma_push_contains(rest, targets.last(), targets[i]);
        }
    } else {
        lemma_push_contains(rest, targets.last(), targets[i]);
    }
}

proof fn lemma_refusing_back(targets: Seq<usize>, accepted: Seq<bool>, d: usize)
    requires
        targets.len() == accepted.len(),
        refusing(targets, accepted).contains(d),
    ensures
        targets.contains(d),
    decreases targets.len(),
{
    if targets.len() > 0 {
        let rest = refusing(targets.drop_last(), accepted.drop_last());
        if !accepted.last() {
            lemma_push_contains(rest, targets.last(), d);
        }
        if rest.contains(d) {
            lemma_refusing_back(targets.drop_last(), accepted.drop_last(), d);
            let j = choose|j: int| 0 <= j < targets.len() - 1 && targets.drop_last()[j] == d;
            assert(targets[j] == d);
        } else {
            assert(targets[targets.len() - 1] == d);
        }
    }
}

/// Every disk that counts as healthy holds a full copy of the metadata: where all healthy disks hold
/// the database `db` before a batch, all that are healthy after it hold `db` with the batch applied.
///
/// `before` and `after` are the databases before and after the batch. A healthy disk has the batch
/// applied if it accepted the batch or, having refused it, the repair; of the others nothing is
/// known.
pub proof fn law_healthy_replicas_hold_the_batch(
    failed: Seq<bool>,
    accepted: Seq<bool>,
    repaired: Seq<usize>,
    puts: Seq<(Seq<char>, Seq<u8>)>,
    deletes: Seq<Seq<char>>,
    before: Seq<Map<Seq<char>, Seq<u8>>>,
    after: Seq<Map<Seq<char>, Seq<u8>>>,
    db: Map<Seq<char>, Seq<u8>>,
)
    requires
        failed.len() <= usize::MAX,
        accepted.len() == healthy(failed).len(),
        agree(failed, before, db),
        after.len() == before.len(),
        // Accepting the batch applies it.
        forall|i: int|
            #![trigger healthy(failed)[i]]
            0 <= i < accepted.len() && accepted[i] ==> after[healthy(failed)[i] as int]
                == batch_applied(before[healthy(failed)[i] as int], puts, deletes),
        // So does accepting the repair.
        forall|m: int|
            0 <= m < failed.len() && !failed[m] && #[trigger] repaired.contains(m as usize)
                ==> after[m] == batch_applied(before[m], puts, deletes),
    ensures
        agree(failed_after(failed, accepted, repaired), after, batch_applied(db, puts, deletes)),
{
    lemma_healthy_below(failed, failed.len() as int);
    let targets = healthy(failed);
    let refused = refusing(targets, accepted);
    let later = failed_after(failed, accepted, repaired);
    assert forall|d: int| 0 <= d < later.len() && !later[d] implies #[trigger] after[d]
        == batch_applied(db, puts, deletes) by {
        if failed[d] {
            if refused.contains(d as usize) {
                lemma_refusing_back(targets, accepted, d as usize);
            }
        } else {
            assert(before[d] == db);
            assert(targets.contains(d as usize));
            let i = choose|i: int| 0 <= i < targets.len() && targets[i] == d as usize;
            if !accepted[i] {
                lemma_refusing(targets, accepted, i);
                assert(repaired.contains(d as usize));
            }
        }
    }
}

/// A disk that has failed stays failed, whatever it takes: batches alone do not bring it back.
pub proof fn law_failed_disk_stays_failed(
    failed: Seq<bool>,
    accepted: Seq<bool>,
    repaired: Seq<usize>,
    d: int,
)
    requires
        failed.len() <= usize::MAX,
        accepted.len() == healthy(failed).len(),
        0 <= d < failed.len(),
        failed[d],
    ensures
        failed_after(failed, accepted, repaired)[d],
{
    lemma_healthy_below(failed, failed.len() as int);
    if refusing(healthy(failed), accepted).contains(d as usize) {
        lemma_refusing_back(healthy(failed), accepted, d as usize);
    }
}

proof fn lemma_cleared_database(db: Map<Seq<char>, Seq<u8>>, keys: Seq<Seq<char>>)
    ensures
        forall|key: Seq<char>| #[trigger]
            batch_applied(db, Seq::empty(), keys).contains_key(key) ==> db.contains_key(key)
                && !keys.contains(key),
    decreases keys.len(),
{
    if keys.len() > 0 {
        lemma_cleared_database(db, keys.drop_last());
        assert forall|key: Seq<char>| #[trigger]
            batch_applied(db, Seq::empty(), keys).contains_key(key) implies db.contains_key(key)
            && !keys.contains(key) by {
            let shorter = batch_applied(db, Seq::empty(), keys.drop_last());
            assert(batch_applied(db, Seq::empty(), keys) == shorter.remove(keys.last()));
            assert(shorter.contains_key(key));
            if keys.contains(key) {
                let j = choose|j: int| 0 <= j < keys.len() && keys[j] == key;
                if j < keys.len() - 1 {
                    assert(keys.drop_last()[j] == key);
                }
            }
        }
    }
}

/// Recovering a disk makes it a full copy: what the two batches of a recovery leave on it is the
/// database that all healthy disks hold, so that it can be used again.
pub proof fn law_recovered_disk_holds_a_full_copy(
    failed: Seq<bool>,
    dbs: Seq<Map<Seq<char>, Seq<u8>>>,
    db: Map<Seq<char>, Seq<u8>>,
    recovering: int,
    source: int,
    plans: (BatchPlan, BatchPlan),
    after: Seq<Map<Seq<char>, Seq<u8>>>,
)
    requires
        agree(failed, dbs, db),
        0 <= recovering < failed.len(),
        0 <= source < failed.len(),
        !failed[source],
        // The first batch removes all keys of the disk, the second sets those of the source.
        plans.0.puts@.len() == 0,
        plans.1.deletes@.len() == 0,
        forall|key: Seq<char>| #[trigger]
            dbs[recovering].contains_key(key) ==> texts(plans.0.deletes@).contains(key),
        dbs[source] == batch_applied(Map::empty(), put_pairs(plans.1.puts@), Seq::empty()),
        after == dbs.update(
            recovering,
            batch_applied(
                batch_applied(
                    dbs[recovering],
                    put_pairs(plans.0.puts@),
                    texts(plans.0.deletes@),
                ),
                put_pairs(plans.1.puts@),
                texts(plans.1.deletes@),
            ),
        ),
    ensures
        agree(failed.update(recovering, false), after, db),
{
    let keys = texts(plans.0.deletes@);
    assert(put_pairs(plans.0.puts@) =~= Seq::empty());
    assert(texts(plans.1.deletes@) =~= Seq::empty());
    lemma_cleared_database(dbs[recovering], keys);
    assert(batch_applied(dbs[recovering], Seq::empty(), keys) =~= Map::empty());
    assert(dbs[source] == db);
}

/// A batch is pushed to every failed disk, and to no other.
pub proof fn law_batch_is_pushed_to_failed_disks(failed: Seq<bool>, d: int)
    requires
        failed.len() <= usize::MAX,
        0 <= d < failed.len(),
    ensures
        all_failed(failed).contains(d as usize) <==> failed[d],
{
    lemma_failed_below(failed, failed.len() as int, d);
}

proof fn lemma_failed_below(failed: Seq<bool>, n: int, d: int)
    requires
        0 <= n <= failed.len() <= usize::MAX,
        0 <= d < failed.len(),
    ensures
        failed_below(failed, n).contains(d as usize) <==> d < n && failed[d],
    decreases n,
{
    if n > 0 {
        lemma_failed_below(failed, n - 1, d);
        if failed[n - 1] {
            lemma_push_contains(failed_below(failed, n - 1), (n - 1) as usize, d as usize);
        }
    }
}

/// Whether `outcome` is what reading `key` from the database `db` gives.
pub open spec fn is_outcome_of(
    outcome: KvRead,
    db: Map<Seq<char>, Seq<u8>>,
    key: Seq<char>,
) -> bool {
    match outcome {
        KvRead::Value(v) => db.contains_key(key) && db[key] == v@,
        KvRead::Missing => !db.contains_key(key),
        KvRead::Failed(_) => false,
    }
}

proof fn lemma_none_decisive(outcomes: Seq<KvRead>)
    requires
        forall|i: int| 0 <= i < outcomes.len() ==> (#[trigger] outcomes[i]) is Missing,
    ensures
        first_decisive(outcomes) is None,
    decreases outcomes.len(),
{
    if outcomes.len() > 0 {
        assert(outcomes.last() is Missing);
        lemma_none_decisive(outcomes.drop_last());
    }
}

/// One healthy disk is enough to read: where the healthy disks hold the database `db`, the first of
/// them already decides a read of a key that is there, with the value in `db`; and a key that is not
/// there is found on none of them. Failed disks are not asked.
pub proof fn law_one_healthy_disk_is_enough(
    failed: Seq<bool>,
    dbs: Seq<Map<Seq<char>, Seq<u8>>>,
    db: Map<Seq<char>, Seq<u8>>,
    key: Seq<char>,
    outcomes: Seq<KvRead>,
)
    requires
        failed.len() <= usize::MAX,
        agree(failed, dbs, db),
        0 < outcomes.len() <= healthy(failed).len(),
        forall|i: int|
            0 <= i < outcomes.len() ==> is_outcome_of(
                #[trigger] outcomes[i],
                dbs[healthy(failed)[i] as int],
                key,
            ),
    ensures
        db.contains_key(key) ==> first_decisive(outcomes) == Some(0int) && (outcomes[0] matches
            KvRead::Value(v) && v@ == db[key]),
        !db.contains_key(key) ==> first_decisive(outcomes) is None,
{
    lemma_healthy_below(failed, failed.len() as int);
    assert forall|i: int| 0 <= i < outcomes.len() implies is_outcome_of(
        #[trigger] outcomes[i],
        db,
        key,
    ) by {
        let d = healthy(failed)[i] as int;
        assert(!failed[d]);
        assert(dbs[d] == db);
    }
    assert(is_outcome_of(outcomes[0], db, key));
    if db.contains_key(key) {
        let first = outcomes.take(1);
        assert(first.drop_last() =~= Seq::empty());
        assert(first.last() == outcomes[0]);
        reveal_with_fuel(first_decisive, 2);
        lemma_first_decisive_prefix(outcomes, 1);
    } else {
        lemma_none_decisive(outcomes);
    }
}

/// A disk that refused a batch and could not be repaired stays out of use.
pub proof fn law_refusing_disk_is_failed(
    failed: Seq<bool>,
    accepted: Seq<bool>,
    repaired: Seq<usize>,
    i: int,
)
    requires
        failed.len() <= usize::MAX,
        accepted.len() == healthy(failed).len(),
        0 <= i < accepted.len(),
        !accepted[i],
        !repaired.contains(healthy(failed)[i]),
    ensures
        failed_after(failed, accepted, repaired)[healthy(failed)[i] as int],
{
    lemma_healthy_below(failed, failed.len() as int);
    lemma_refusing(healthy(failed), accepted, i);
}

/// The healthy disks are exactly those that are not marked as failed, each once and in order, and
/// the failed ones are all others.
pub proof fn law_every_disk_is_healthy_or_failed(failed: Seq<bool>, d: int)
    requires
        failed.len() <= usize::MAX,
        0 <= d < failed.len(),
    ensures
        healthy(failed).contains(d as usize) <==> !failed[d],
        all_failed(failed).contains(d as usize) <==> failed[d],
        healthy(failed).len() + all_failed(failed).len() == failed.len(),
        forall|a: int, b: int|
            0 <= a < b < healthy(failed).len() ==> (#[trigger] healthy(failed)[a]) < (
            #[trigger] healthy(failed)[b]),
{
    let n = failed.len() as int;
    lemma_healthy_below(failed, n);
    lemma_failed_below_contains(failed, n);
    lemma_counts_below(failed, n);
    if healthy(failed).contains(d as usize) {
        let j = choose|j: int| 0 <= j < healthy(failed).len() && healthy(failed)[j] == d as usize;
        assert(healthy_below(failed, n)[j] == d as usize);
    }
    if all_failed(failed).contains(d as usize) {
        let j = choose|j: int|
            0 <= j < all_failed(failed).len() && all_failed(failed)[j] == d as usize;
        assert(failed_below(failed, n)[j] == d as usize);
    }
}

proof fn lemma_counts_below(failed: Seq<bool>, n: int)
    requires
        0 <= n <= failed.len(),
    ensures
        healthy_below(failed, n).len() + failed_below(failed, n).len() == n,
    decreases n,
{
    if n > 0 {
        lemma_counts_below(failed, n - 1);
    }
}

proof fn lemma_failed_below_contains(failed: Seq<bool>, n: int)
    requires
        0 <= n <= failed.len() <= usize::MAX,
    ensures
        forall|j: int|
            0 <= j < failed_below(failed, n).len() ==> (#[trigger] failed_below(failed, n)[j]) < n
                && failed[failed_below(failed, n)[j] as int],
        forall|i: int|
            0 <= i < n && #[trigger] failed[i] ==> failed_below(failed, n).contains(i as usize),
    decreases n,
{
    if n > 0 {
        lemma_failed_below_contains(failed, n - 1);
        let shorter = failed_below(failed, n - 1);
        let here = failed_below(failed, n);
        assert forall|i: int| 0 <= i < n && #[trigger] failed[i] implies here.contains(
            i as usize,
        ) by {
            if i < n - 1 {
                let j = choose|j: int| 0 <= j < shorter.len() && shorter[j] == i as usize;
                assert(here[j] == i as usize);
            } else {
                assert(here.last() == i as usize);
            }
        }
    }
}

/// The first disk that has the key, or that cannot be read, decides a read; where no disk does, the
/// key is on none of them.
pub proof fn law_first_answer_decides(outcomes: Seq<KvRead>)
    ensures
        match first_decisive(outcomes) {
            Some(i) => 0 <= i < outcomes.len() && !(outcomes[i] is Missing) && forall|j: int|
                0 <= j < i ==> (#[trigger] outcomes[j]) is Missing,
            None => forall|j: int| 0 <= j < outcomes.len() ==> (#[trigger] outcomes[j]) is Missing,
        },
    decreases outcomes.len(),
{
    if outcomes.len() > 0 {
        let shorter = outcomes.drop_last();
        law_first_answer_decides(shorter);
        assert forall|j: int| 0 <= j < shorter.len() implies shorter[j] == #[trigger] outcomes[j] by {
        }
    }
}

} // verus!
