//! Listings of objects.
use crate::disk::{VersionMeta, VersionStatus};
use crate::metadata::object_key_of;
use crate::text::{same_text, text_before};
use vstd::prelude::*;

verus! {

use crate::metadata::{law_object_key_is_found_again, object_key_in, version_key_of};
use crate::text::{
    lemma_text_lt_irreflexive, lemma_text_lt_total, lemma_text_lt_transitive, text_lt,
};

/// An entry of a listing.
#[derive(Debug)]
pub struct ListEntry {
    pub key: String,
    pub version: u64,
    pub size: usize,
    pub checksum: u128,
}

impl Clone for ListEntry {
    fn clone(&self) -> (r: Self)
        ensures
            r == *self,
    {
        ListEntry {
            key: self.key.clone(),
            version: self.version,
            size: self.size,
            checksum: self.checksum,
        }
    }
}

/// An object with the position of its latest committed version in a list of entries.
pub struct LatestObject {
    pub key: String,
    pub index: usize,
}

/// Whether entry `i` of `entries` is a committed version of the object `key`.
pub open spec fn is_committed_of(
    entries: Seq<(String, VersionMeta)>,
    i: int,
    key: Seq<char>,
) -> bool {
    0 <= i < entries.len() && entries[i].1.status == VersionStatus::Committed && object_key_in(
        entries[i].0@,
    ) == key
}

/// Whether entry `i` is the latest committed version of the object `key` among `entries`: the
/// first one with the highest version.
#[verifier::opaque]
pub open spec fn is_latest(entries: Seq<(String, VersionMeta)>, i: int, key: Seq<char>) -> bool {
    &&& is_committed_of(entries, i, key)
    &&& forall|j: int| #[trigger]
        is_committed_of(entries, j, key) ==> entries[j].1.version <= entries[i].1.version && (j < i
            ==> entries[j].1.version < entries[i].1.version)
}

/// Whether `list` holds each object that has a committed version among `entries` once, in the
/// order of the keys, with its latest version.
pub open spec fn are_latest(
    entries: Seq<(String, VersionMeta)>,
    list: Seq<LatestObject>,
) -> bool {
    &&& forall|a: int, b: int|
        0 <= a < b < list.len() ==> text_lt((#[trigger] list[a]).key@, (#[trigger] list[b]).key@)
    &&& forall|a: int|
        0 <= a < list.len() ==> is_latest(
            entries,
            (#[trigger] list[a]).index as int,
            list[a].key@,
        )
    &&& forall|i: int, key: Seq<char>| #[trigger]
        is_committed_of(entries, i, key) ==> exists|a: int|
            0 <= a < list.len() && (#[trigger] list[a]).key@ == key
}

proof fn lemma_not_both(a: Seq<char>, b: Seq<char>)
    ensures
        !(text_lt(a, b) && text_lt(b, a)),
        text_lt(a, b) ==> a != b,
{
    lemma_text_lt_irreflexive(a);
    if text_lt(a, b) && text_lt(b, a) {
        lemma_text_lt_transitive(a, b, a);
    }
}

pub proof fn lemma_latest_is_committed(entries: Seq<(String, VersionMeta)>, i: int, key: Seq<char>)
    requires
        is_latest(entries, i, key),
    ensures
        is_committed_of(entries, i, key),
{
    reveal(is_latest);
}

/// Taking in one more entry keeps the list of the latest versions.
proof fn lemma_next_entry(
    entries: Seq<(String, VersionMeta)>,
    n: int,
    list: Seq<LatestObject>,
    next: Seq<LatestObject>,
    at: int,
    key: Seq<char>,
)
    requires
        0 <= n < entries.len(),
        are_latest(entries.take(n), list),
        entries[n].1.status == VersionStatus::Committed,
        object_key_in(entries[n].0@) == key,
        0 <= at <= list.len(),
        forall|a: int| 0 <= a < at ==> text_lt((#[trigger] list[a]).key@, key),
        at < list.len() ==> !text_lt(list[at].key@, key),
        if at < list.len() && list[at].key@ == key {
            if entries[n].1.version > entries[list[at].index as int].1.version {
                next.len() == list.len() && next[at].key@ == key && next[at].index == n && forall|
                    a: int,
                |
                    0 <= a < list.len() && a != at ==> #[trigger] next[a] == list[a]
            } else {
                next == list
            }
        } else {
            next.len() == list.len() + 1 && next[at].key@ == key && next[at].index == n && (
            forall|a: int| 0 <= a < at ==> #[trigger] next[a] == list[a]) && (forall|a: int|
                at < a < next.len() ==> #[trigger] next[a] == list[a - 1])
        },
    ensures
        are_latest(entries.take(n + 1), next),
{
    reveal(is_latest);
    let before = entries.take(n);
    let after = entries.take(n + 1);
    assert forall|i: int, k: Seq<char>| #[trigger] is_committed_of(after, i, k) implies (i == n && k
        == key) || is_committed_of(before, i, k) by {
        if i < n {
            assert(after[i] == before[i]);
        }
    }
    assert forall|i: int, k: Seq<char>| #[trigger] is_committed_of(before, i, k) implies
        is_committed_of(after, i, k) by {
        assert(after[i] == before[i]);
    }
    assert(is_committed_of(after, n, key));
    let found = at < list.len() && list[at].key@ == key;
    if !found {
        // No entry of the list has the key.
        assert forall|a: int| 0 <= a < list.len() implies (#[trigger] list[a]).key@ != key by {
            if a < at {
                lemma_not_both(list[a].key@, key);
            } else {
                lemma_text_lt_total(list[at].key@, key);
                if a > at {
                    assert(text_lt(list[at].key@, list[a].key@));
                    lemma_text_lt_transitive(key, list[at].key@, list[a].key@);
                }
                lemma_not_both(key, list[a].key@);
            }
        }
        assert forall|j: int| !#[trigger] is_committed_of(before, j, key) by {
            if is_committed_of(before, j, key) {
                let a = choose|a: int| 0 <= a < list.len() && (#[trigger] list[a]).key@ == key;
            }
        }
        assert forall|a: int, b: int| 0 <= a < b < next.len() implies text_lt(
            (#[trigger] next[a]).key@,
            (#[trigger] next[b]).key@,
        ) by {
            if a == at {
                // The new entry stands in front of what follows.
                assert(next[b] == list[b - 1]);
                lemma_text_lt_total(list[at].key@, key);
                assert(text_lt(key, list[at].key@));
                if b - 1 > at {
                    assert(text_lt(list[at].key@, list[b - 1].key@));
                    lemma_text_lt_transitive(key, list[at].key@, list[b - 1].key@);
                }
            } else if b == at {
                assert(next[a] == list[a]);
            } else if a < at && b > at {
                assert(next[a] == list[a] && next[b] == list[b - 1]);
                assert(text_lt(list[a].key@, list[b - 1].key@));
            } else if b < at {
                assert(next[a] == list[a] && next[b] == list[b]);
            } else {
                assert(next[a] == list[a - 1] && next[b] == list[b - 1]);
                assert(text_lt(list[a - 1].key@, list[b - 1].key@));
            }
        }
    }
    assert forall|a: int| 0 <= a < next.len() implies is_latest(
        after,
        (#[trigger] next[a]).index as int,
        next[a].key@,
    ) by {
        let i = next[a].index as int;
        let k = next[a].key@;
        if a == at && next[a].index == n && k == key {
            assert forall|j: int| #[trigger] is_committed_of(after, j, key) implies
                after[j].1.version <= after[i].1.version && (j < i ==> after[j].1.version
                < after[i].1.version) by {
                if j < n {
                    assert(is_committed_of(before, j, key));
                    if found {
                        let o = list[at].index as int;
                        assert(is_latest(before, o, key));
                        assert(before[j].1.version <= before[o].1.version);
                        assert(before[o] == entries[o]);
                        assert(before[j] == entries[j]);
                    }
                }
            }
        } else {
            let o = if found || a < at {
                a
            } else {
                a - 1
            };
            assert(next[a] == list[o]);
            assert(is_latest(before, i, k));
            assert(after[i] == before[i]);
            assert forall|j: int| #[trigger] is_committed_of(after, j, k) implies after[j].1.version
                <= after[i].1.version && (j < i ==> after[j].1.version < after[i].1.version) by {
                if j < n {
                    assert(is_committed_of(before, j, k));
                    assert(after[j] == before[j]);
                } else {
                    assert(k == key);
                    if found {
                        if a != at {
                            if a < at {
                                lemma_not_both(list[a].key@, list[at].key@);
                            } else {
                                lemma_not_both(list[at].key@, list[a].key@);
                            }
                        }
                    }
                }
            }
        }
    }
    assert forall|i: int, k: Seq<char>| #[trigger] is_committed_of(after, i, k) implies exists|
        a: int,
    |
        0 <= a < next.len() && (#[trigger] next[a]).key@ == k by {
        if k == key {
            if found {
                assert(next[at].key@ == key);
            } else {
                assert(next[at].key@ == key);
            }
        } else {
            assert(is_committed_of(before, i, k));
            let a = choose|a: int| 0 <= a < list.len() && (#[trigger] list[a]).key@ == k;
            if found || a < at {
                assert(next[a].key@ == k);
            } else {
                assert(next[a + 1] == list[a]);
            }
        }
    }
}

/// The latest committed version of each object among `entries`, in the order of the keys.
pub fn latest_objects(entries: &[(String, VersionMeta)]) -> (r: Vec<LatestObject>)
    ensures
        are_latest(entries@, r@),
{
    let mut list: Vec<LatestObject> = Vec::new();
    let mut n: usize = 0;
    assert(are_latest(entries@.take(0), list@));
    while n < entries.len()
        invariant
            n <= entries@.len(),
            are_latest(entries@.take(n as int), list@),
        decreases entries.len() - n,
    {
        let ghost before = list@;
        if entries[n].1.status == VersionStatus::Committed {
            let key = object_key_of(entries[n].0.as_str());
            let ghost key_text = key@;
            let mut at: usize = 0;
            while at < list.len() && text_before(list[at].key.as_str(), key.as_str())
                invariant
                    at <= list@.len(),
                    list@ == before,
                    forall|a: int| 0 <= a < at ==> text_lt((#[trigger] list@[a]).key@, key@),
                decreases list.len() - at,
            {
                at += 1;
            }
            if at < list.len() && same_text(list[at].key.as_str(), key.as_str()) {
                let old_index: usize = list[at].index;
                proof {
                    reveal(is_latest);
                    assert(is_latest(entries@.take(n as int), old_index as int, key@));
                }
                if entries[n].1.version > entries[old_index].1.version {
                    list.set(at, LatestObject { key, index: n });
                }
            } else {
                list.insert(at, LatestObject { key, index: n });
            }
            proof {
                lemma_next_entry(entries@, n as int, before, list@, at as int, key_text);
            }
        } else {
            proof {
                lemma_uncommitted_entry(entries@, n as int, before);
            }
        }
        n += 1;
    }
    assert(entries@.take(entries@.len() as int) =~= entries@);
    list
}

proof fn lemma_uncommitted_entry(
    entries: Seq<(String, VersionMeta)>,
    n: int,
    list: Seq<LatestObject>,
)
    requires
        0 <= n < entries.len(),
        are_latest(entries.take(n), list),
        entries[n].1.status != VersionStatus::Committed,
    ensures
        are_latest(entries.take(n + 1), list),
{
    reveal(is_latest);
    let before = entries.take(n);
    let after = entries.take(n + 1);
    assert forall|i: int, k: Seq<char>| #[trigger] is_committed_of(after, i, k) implies
        is_committed_of(before, i, k) by {
        if i < n {
            assert(after[i] == before[i]);
        }
    }
    assert forall|a: int| 0 <= a < list.len() implies is_latest(
        after,
        (#[trigger] list[a]).index as int,
        list[a].key@,
    ) by {
        let i = list[a].index as int;
        assert(is_latest(before, i, list[a].key@));
        assert(after[i] == before[i]);
        assert forall|j: int| #[trigger] is_committed_of(after, j, list[a].key@) implies
            after[j].1.version <= after[i].1.version && (j < i ==> after[j].1.version
            < after[i].1.version) by {
            assert(is_committed_of(before, j, list[a].key@));
            assert(after[j] == before[j]);
        }
    }
}

/// Whether an object is listed behind a marker.
pub open spec fn is_behind(key: Seq<char>, marker: Option<&str>) -> bool {
    marker matches Some(m) ==> text_lt(m@, key)
}

/// Whether `e` describes the latest committed version of its object among `entries`.
pub open spec fn is_entry_for(entries: Seq<(String, VersionMeta)>, e: ListEntry) -> bool {
    exists|i: int| #[trigger]
        is_latest(entries, i, e.key@) && e.version == entries[i].1.version && e.size
            == entries[i].1.data_size && e.checksum == entries[i].1.checksum
}

/// List the latest committed version of each object among `entries`, behind the marker and in the
/// order of the keys, up to `limit` objects.
pub fn list(entries: &[(String, VersionMeta)], marker: Option<&str>, limit: usize) -> (r: Vec<
    ListEntry,
>)
    ensures
        r@.len() <= limit,
        forall|a: int, b: int|
            0 <= a < b < r@.len() ==> text_lt((#[trigger] r@[a]).key@, (#[trigger] r@[b]).key@),
        forall|a: int|
            0 <= a < r@.len() ==> is_entry_for(entries@, #[trigger] r@[a]) && is_behind(
                r@[a].key@,
                marker,
            ),
        // Nothing is left out but what the limit cuts off at the end.
        forall|i: int, key: Seq<char>| #[trigger]
            is_committed_of(entries@, i, key) && is_behind(key, marker) ==> (exists|a: int|
                0 <= a < r@.len() && (#[trigger] r@[a]).key@ == key) || (r@.len() == limit
                && forall|a: int| 0 <= a < r@.len() ==> text_lt((#[trigger] r@[a]).key@, key)),
{
    let latest = latest_objects(entries);
    let mut r: Vec<ListEntry> = Vec::new();
    let mut n: usize = 0;
    while n < latest.len() && r.len() < limit
        invariant
            n <= latest@.len(),
            r@.len() <= limit,
            are_latest(entries@, latest@),
            forall|a: int, b: int|
                0 <= a < b < r@.len() ==> text_lt(
                    (#[trigger] r@[a]).key@,
                    (#[trigger] r@[b]).key@,
                ),
            forall|a: int|
                0 <= a < r@.len() ==> is_entry_for(entries@, #[trigger] r@[a]) && is_behind(
                    r@[a].key@,
                    marker,
                ),
            forall|a: int|
                0 <= a < r@.len() ==> exists|m: int|
                    0 <= m < n && (#[trigger] latest@[m]).key@ == (#[trigger] r@[a]).key@,
            forall|m: int|
                0 <= m < n && is_behind((#[trigger] latest@[m]).key@, marker) ==> exists|a: int|
                    0 <= a < r@.len() && (#[trigger] r@[a]).key@ == latest@[m].key@,
        decreases latest.len() - n,
    {
        let behind: bool = match marker {
            Some(m) => text_before(m, latest[n].key.as_str()),
            None => true,
        };
        if behind {
            let index: usize = latest[n].index;
            let ghost before = r@;
            proof {
                assert(is_latest(entries@, index as int, latest@[n as int].key@));
                lemma_latest_is_committed(entries@, index as int, latest@[n as int].key@);
            }
            let e = ListEntry {
                key: latest[n].key.clone(),
                version: entries[index].1.version,
                size: entries[index].1.data_size,
                checksum: entries[index].1.checksum,
            };
            assert(is_latest(entries@, index as int, e.key@));
            assert(is_entry_for(entries@, e));
            r.push(e);
            proof {
                assert forall|a: int, b: int| 0 <= a < b < r@.len() implies text_lt(
                    (#[trigger] r@[a]).key@,
                    (#[trigger] r@[b]).key@,
                ) by {
                    assert(r@[a] == before[a]);
                    if b == before.len() {
                        let m = choose|m: int|
                            0 <= m < n && (#[trigger] latest@[m]).key@ == before[a].key@;
                        assert(text_lt(latest@[m].key@, latest@[n as int].key@));
                    }
                }
                assert forall|a: int| 0 <= a < r@.len() implies exists|m: int|
                    0 <= m < n + 1 && (#[trigger] latest@[m]).key@ == (#[trigger] r@[a]).key@ by {
                    if a < before.len() {
                        assert(r@[a] == before[a]);
                        let m = choose|m: int|
                            0 <= m < n && (#[trigger] latest@[m]).key@ == before[a].key@;
                        assert(latest@[m].key@ == r@[a].key@);
                    } else {
                        assert(latest@[n as int].key@ == r@[a].key@);
                    }
                }
                assert forall|m: int|
                    0 <= m < n + 1 && is_behind((#[trigger] latest@[m]).key@, marker) implies exists|
                    a: int,
                |
                    0 <= a < r@.len() && (#[trigger] r@[a]).key@ == latest@[m].key@ by {
                    if m < n {
                        let a = choose|a: int|
                            0 <= a < before.len() && (#[trigger] before[a]).key@ == latest@[m].key@;
                        assert(r@[a].key@ == latest@[m].key@);
                    } else {
                        assert(r@[before.len() as int].key@ == latest@[m].key@);
                    }
                }
            }
        }
        n += 1;
    }
    proof {
        assert forall|i: int, key: Seq<char>| #[trigger]
            is_committed_of(entries@, i, key) && is_behind(key, marker) implies (exists|a: int|
            0 <= a < r@.len() && (#[trigger] r@[a]).key@ == key) || (r@.len() == limit && forall|
            a: int,
        |
            0 <= a < r@.len() ==> text_lt((#[trigger] r@[a]).key@, key)) by {
            let m = choose|m: int| 0 <= m < latest@.len() && (#[trigger] latest@[m]).key@ == key;
            if m < n {
                assert(is_behind(latest@[m].key@, marker));
                let a = choose|a: int|
                    0 <= a < r@.len() && (#[trigger] r@[a]).key@ == latest@[m].key@;
                assert(r@[a].key@ == key);
            } else {
                assert forall|a: int| 0 <= a < r@.len() implies text_lt(
                    (#[trigger] r@[a]).key@,
                    key,
                ) by {
                    let o = choose|o: int|
                        0 <= o < n && (#[trigger] latest@[o]).key@ == r@[a].key@;
                    assert(text_lt(latest@[o].key@, latest@[m].key@));
                }
            }
        }
    }
    r
}

proof fn lemma_latest_below(
    entries: Seq<(String, VersionMeta)>,
    n: int,
    i: int,
    key: Seq<char>,
) -> (l: int)
    requires
        0 <= i < n <= entries.len(),
        is_committed_of(entries, i, key),
    ensures
        0 <= l < n,
        is_committed_of(entries, l, key),
        forall|j: int|
            j < n && #[trigger] is_committed_of(entries, j, key) ==> entries[j].1.version
                <= entries[l].1.version && (j < l ==> entries[j].1.version < entries[l].1.version),
    decreases n,
{
    if is_committed_of(entries, n - 1, key) {
        if exists|j: int| j < n - 1 && #[trigger] is_committed_of(entries, j, key) {
            let j = choose|j: int| j < n - 1 && #[trigger] is_committed_of(entries, j, key);
            let l = lemma_latest_below(entries, n - 1, j, key);
            if entries[n - 1].1.version > entries[l].1.version {
                n - 1
            } else {
                l
            }
        } else {
            n - 1
        }
    } else {
        lemma_latest_below(entries, n - 1, i, key)
    }
}

/// Every object with a committed version on record has a latest version in a listing, whatever its
/// key is, and that is not an older one.
pub proof fn law_committed_object_has_a_latest_version(
    entries: Seq<(String, VersionMeta)>,
    object_key: Seq<char>,
    version: u64,
    i: int,
) -> (l: int)
    requires
        0 <= i < entries.len(),
        entries[i].0@ == version_key_of(object_key, version),
        entries[i].1.status == VersionStatus::Committed,
    ensures
        is_latest(entries, l, object_key),
        0 <= l < entries.len(),
        entries[l].1.version >= entries[i].1.version,
{
    law_object_key_is_found_again(object_key, version);
    assert(is_committed_of(entries, i, object_key));
    let l = lemma_latest_below(entries, entries.len() as int, i, object_key);
    reveal(is_latest);
    l
}

/// What a listing takes for the latest version of an object is a committed version of that object
/// and of no other, and none of its committed versions is higher.
pub proof fn law_latest_version_is_committed_and_highest(
    entries: Seq<(String, VersionMeta)>,
    l: int,
    object_key: Seq<char>,
    of: Seq<char>,
    version: u64,
    i: int,
    other: u64,
)
    requires
        is_latest(entries, l, object_key),
        entries[l].0@ == version_key_of(of, version),
        0 <= i < entries.len(),
        entries[i].0@ == version_key_of(object_key, other),
        entries[i].1.status == VersionStatus::Committed,
    ensures
        0 <= l < entries.len(),
        of == object_key,
        entries[l].1.status == VersionStatus::Committed,
        entries[i].1.version <= entries[l].1.version,
{
    reveal(is_latest);
    law_object_key_is_found_again(of, version);
    law_object_key_is_found_again(object_key, other);
    assert(is_committed_of(entries, l, object_key));
    assert(is_committed_of(entries, i, object_key));
}

/// A listing goes on behind its marker: what comes before the marker, and the marker itself, is not
/// shown again, and all that comes behind it is.
pub proof fn law_listing_goes_on_behind_its_marker(marker: &str, key: Seq<char>)
    ensures
        !is_behind(marker@, Some(marker)),
        text_lt(key, marker@) ==> !is_behind(key, Some(marker)),
        text_lt(marker@, key) ==> is_behind(key, Some(marker)),
        is_behind(key, None),
{
    lemma_text_lt_irreflexive(marker@);
    if text_lt(key, marker@) && text_lt(marker@, key) {
        lemma_text_lt_transitive(key, marker@, key);
        lemma_text_lt_irreflexive(key);
    }
}

/// An entry of a listing tells the version, size and checksum of a committed version of its object,
/// and of the highest one.
pub proof fn law_list_entry_describes_its_version(
    entries: Seq<(String, VersionMeta)>,
    e: ListEntry,
)
    requires
        is_entry_for(entries, e),
    ensures
        exists|i: int|
            0 <= i < entries.len() && (#[trigger] entries[i]).1.status == VersionStatus::Committed
                && object_key_in(entries[i].0@) == e.key@ && entries[i].1.version == e.version
                && entries[i].1.data_size == e.size && entries[i].1.checksum == e.checksum,
        forall|j: int|
            0 <= j < entries.len() && (#[trigger] entries[j]).1.status == VersionStatus::Committed
                && object_key_in(entries[j].0@) == e.key@ ==> entries[j].1.version <= e.version,
{
    let i = choose|i: int| #[trigger]
        is_latest(entries, i, e.key@) && e.version == entries[i].1.version && e.size
            == entries[i].1.data_size && e.checksum == entries[i].1.checksum;
    reveal(is_latest);
    assert(is_committed_of(entries, i, e.key@));
    assert(entries[i].1.version == e.version);
    assert forall|j: int|
        0 <= j < entries.len() && (#[trigger] entries[j]).1.status == VersionStatus::Committed
            && object_key_in(entries[j].0@) == e.key@ implies entries[j].1.version
        <= e.version by {
        assert(is_committed_of(entries, j, e.key@));
    }
}

} // verus!
