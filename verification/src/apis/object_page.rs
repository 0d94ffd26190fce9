//! Pages of an object listing.
use crate::apis::s3::{
    document, error_to_response, etag, list_objects_xml, ContentEntry, ListObjectsQuery,
    ListXmlParams, Reply,
};
use crate::disk::VersionMeta;
use crate::errors::StorageResult;
use crate::listing::{latest_objects, LatestObject};
use crate::text::{
    chars_of, find_text, join2, join3, owned, same_text, string_of, strip_prefix, text_before,
};
use vstd::prelude::*;

verus! {

use crate::apis::s3::{is_document, is_error, list_document, quoted};
use crate::disk::VersionStatus;
use crate::listing::{
    are_latest, is_latest, law_committed_object_has_a_latest_version, lemma_latest_is_committed,
};
use crate::metadata::{object_key_in, version_key_of};
use crate::text::{hex, lemma_text_lt_total, lemma_text_lt_transitive, occurs_at, text_lt};

/// Whether an object is listed behind a marker.
pub open spec fn is_after(key: Seq<char>, marker: Option<Seq<char>>) -> bool {
    marker matches Some(m) ==> text_lt(m, key)
}

/// Whether `rows` holds, in the order of the keys, the latest committed version of each object
/// among `entries` that is behind the marker.
pub open spec fn are_rows(
    entries: Seq<(String, VersionMeta)>,
    marker: Option<Seq<char>>,
    rows: Seq<LatestObject>,
) -> bool {
    &&& forall|a: int, b: int|
        0 <= a < b < rows.len() ==> text_lt((#[trigger] rows[a]).key@, (#[trigger] rows[b]).key@)
    &&& forall|a: int|
        0 <= a < rows.len() ==> is_latest(
            entries,
            (#[trigger] rows[a]).index as int,
            rows[a].key@,
        ) && is_after(rows[a].key@, marker)
    &&& forall|i: int, key: Seq<char>| #[trigger]
        is_latest(entries, i, key) && is_after(key, marker) ==> exists|a: int|
            0 <= a < rows.len() && (#[trigger] rows[a]).key@ == key
}

/// What the marker of a listing of `bucket` says of the whole keys of objects.
pub open spec fn full_marker_of(bucket: Seq<char>, marker: Option<Seq<char>>) -> Option<Seq<char>> {
    match marker {
        Some(m) => Some(bucket + "/"@ + m),
        None => None,
    }
}

/// The rows of a listing of `bucket` behind a marker.
pub fn list_rows(
    entries: &[(String, VersionMeta)],
    bucket: &str,
    marker: &Option<String>,
) -> (rows: Vec<LatestObject>)
    ensures
        are_rows(entries@, full_marker_of(bucket@, text_of(*marker)), rows@),
{
    let full: Option<String> = match marker {
        Some(m) => Some(join3(bucket, "/", m.as_str())),
        None => None,
    };
    let ghost behind_of = full_marker_of(bucket@, text_of(*marker));
    let latest = latest_objects(entries);
    let mut rows: Vec<LatestObject> = Vec::new();
    let mut n: usize = 0;
    while n < latest.len()
        invariant
            n <= latest@.len(),
            are_latest(entries@, latest@),
            behind_of == text_of(full),
            forall|a: int, b: int|
                0 <= a < b < rows@.len() ==> text_lt(
                    (#[trigger] rows@[a]).key@,
                    (#[trigger] rows@[b]).key@,
                ),
            forall|a: int|
                0 <= a < rows@.len() ==> is_latest(
                    entries@,
                    (#[trigger] rows@[a]).index as int,
                    rows@[a].key@,
                ) && is_after(rows@[a].key@, behind_of) && (n < latest@.len() ==> text_lt(
                    rows@[a].key@,
                    latest@[n as int].key@,
                )),
            forall|m: int|
                0 <= m < n && is_after((#[trigger] latest@[m]).key@, behind_of) ==> exists|a: int|
                    0 <= a < rows@.len() && (#[trigger] rows@[a]).key@ == latest@[m].key@,
        decreases latest.len() - n,
    {
        let behind: bool = match &full {
            Some(m) => text_before(m.as_str(), latest[n].key.as_str()),
            None => true,
        };
        let ghost before = rows@;
        if behind {
            rows.push(LatestObject { key: latest[n].key.clone(), index: latest[n].index });
            assert(is_latest(
                entries@,
                latest@[n as int].index as int,
                latest@[n as int].key@,
            ));
        }
        proof {
            assert forall|a: int| 0 <= a < rows@.len() && n + 1 < latest@.len() implies text_lt(
                (#[trigger] rows@[a]).key@,
                latest@[n + 1].key@,
            ) by {
                assert(text_lt(latest@[n as int].key@, latest@[n + 1].key@));
                if a < before.len() {
                    assert(rows@[a] == before[a]);
                    lemma_text_lt_transitive(
                        before[a].key@,
                        latest@[n as int].key@,
                        latest@[n + 1].key@,
                    );
                }
            }
            assert forall|m: int|
                0 <= m < n + 1 && is_after((#[trigger] latest@[m]).key@, behind_of) implies exists|
                a: int,
            |
                0 <= a < rows@.len() && (#[trigger] rows@[a]).key@ == latest@[m].key@ by {
                if m < n {
                    let a = choose|a: int|
                        0 <= a < before.len() && (#[trigger] before[a]).key@ == latest@[m].key@;
                    assert(rows@[a].key@ == latest@[m].key@);
                } else {
                    assert(rows@[before.len() as int].key@ == latest@[m].key@);
                }
            }
        }
        n += 1;
    }
    proof {
        assert forall|i: int, key: Seq<char>| #[trigger]
            is_latest(entries@, i, key) && is_after(key, behind_of) implies exists|a: int|
            0 <= a < rows@.len() && (#[trigger] rows@[a]).key@ == key by {
            lemma_latest_is_committed(entries@, i, key);
            let m = choose|m: int| 0 <= m < latest@.len() && (#[trigger] latest@[m]).key@ == key;
            let a = choose|a: int|
                0 <= a < rows@.len() && (#[trigger] rows@[a]).key@ == latest@[m].key@;
            assert(rows@[a].key@ == key);
        }
    }
    rows
}

/// The key of an object without its bucket.
pub open spec fn display_key_of(key: Seq<char>, bucket: Seq<char>) -> Seq<char> {
    let p = bucket + "/"@;
    if p.is_prefix_of(key) {
        key.skip(p.len() as int)
    } else {
        key
    }
}

/// The key of an object without its bucket.
fn display_key(key: &str, bucket: &str) -> (r: String)
    ensures
        r@ == display_key_of(key@, bucket@),
{
    match strip_prefix(key, join2(bucket, "/").as_str()) {
        Some(k) => k,
        None => owned(key),
    }
}

/// Whether `p` stands in `s` at `i` and nowhere before.
pub open spec fn is_first_at(s: Seq<char>, p: Seq<char>, i: int) -> bool {
    0 <= i && occurs_at(s, p, i) && forall|j: int| 0 <= j < i ==> !#[trigger] occurs_at(s, p, j)
}

/// Whether `p` stands somewhere in `s`.
pub open spec fn has_first(s: Seq<char>, p: Seq<char>) -> bool {
    exists|i: int| is_first_at(s, p, i)
}

/// Where `p` stands first in `s`.
pub open spec fn first_at(s: Seq<char>, p: Seq<char>) -> int {
    choose|i: int| is_first_at(s, p, i)
}

/// What follows the asked prefix in the key of an object.
pub open spec fn suffix_of(display_key: Seq<char>, prefix: Seq<char>) -> Seq<char> {
    if prefix.is_prefix_of(display_key) {
        display_key.skip(prefix.len() as int)
    } else {
        display_key
    }
}

proof fn lemma_first_at(s: Seq<char>, p: Seq<char>, i: int)
    requires
        is_first_at(s, p, i),
    ensures
        has_first(s, p),
        first_at(s, p) == i,
{
    let j = first_at(s, p);
    assert(is_first_at(s, p, j));
    if j < i {
        assert(occurs_at(s, p, j));
    } else if i < j {
        assert(occurs_at(s, p, i));
    }
}

/// The common prefix under which the object `display_key` is listed, if any: the asked prefix and
/// what follows up to and with the first delimiter.
pub open spec fn common_prefix_of(
    display_key: Seq<char>,
    prefix: Seq<char>,
    delimiter: Seq<char>,
) -> Option<Seq<char>> {
    let suffix = suffix_of(display_key, prefix);
    if delimiter.len() > 0 && has_first(suffix, delimiter) {
        Some(prefix + suffix.take(first_at(suffix, delimiter) + delimiter.len()))
    } else {
        None
    }
}

/// The common prefix under which the object `display_key` is listed, if any.
pub fn common_prefix(display_key: &str, prefix: &str, delimiter: &str) -> (r: Option<String>)
    ensures
        r is Some <==> common_prefix_of(display_key@, prefix@, delimiter@) is Some,
        r matches Some(t) ==> Some(t@) == common_prefix_of(display_key@, prefix@, delimiter@),
        // The common prefix starts with the asked prefix and is a part of the key.
        prefix@.is_prefix_of(display_key@) ==> (r matches Some(t) ==> prefix@.is_prefix_of(t@)
            && t@.is_prefix_of(display_key@) && delimiter@.is_suffix_of(t@)),
{
    proof {
        if prefix@.is_prefix_of(display_key@) {
            law_common_prefix_is_part_of_the_key(display_key@, prefix@, delimiter@);
        }
    }
    let d = chars_of(delimiter);
    if d.len() == 0 {
        return None;
    }
    let suffix: String = match strip_prefix(display_key, prefix) {
        Some(suffix) => suffix,
        None => owned(display_key),
    };
    assert(suffix@ == suffix_of(display_key@, prefix@));
    let v = chars_of(suffix.as_str());
    match find_text(v.as_slice(), d.as_slice(), 0) {
        Some(i) => {
            proof {
                lemma_first_at(suffix@, delimiter@, i as int);
            }
            assert(v.len() == suffix@.len() && i + d.len() <= v.len());
            let head = string_of(&v.as_slice()[0..i + d.len()]);
            assert(head@ =~= suffix@.take(i + d.len()));
            Some(join2(prefix, head.as_str()))
        },
        None => {
            assert forall|j: int| !#[trigger] is_first_at(suffix@, delimiter@, j) by {
                if is_first_at(suffix@, delimiter@, j) {
                    assert(occurs_at(v@, d@, j));
                }
            }
            None
        },
    }
}

/// What a listing shows of an object: its key, time, entity tag and size.
pub open spec fn content_of(
    entries: Seq<(String, VersionMeta)>,
    row: LatestObject,
    bucket: Seq<char>,
) -> (Seq<char>, Seq<char>, Seq<char>, usize) {
    let meta = entries[row.index as int].1;
    (
        display_key_of(row.key@, bucket),
        meta.last_modified@,
        quoted(hex(meta.checksum as nat)),
        meta.data_size,
    )
}

/// What an entry of a listing shows.
pub open spec fn content_texts(e: ContentEntry) -> (Seq<char>, Seq<char>, Seq<char>, usize) {
    (e.key@, e.last_modified@, e.etag@, e.size)
}

/// The rows that are listed as objects, not under a common prefix.
pub open spec fn leaf_rows(
    rows: Seq<LatestObject>,
    bucket: Seq<char>,
    prefix: Seq<char>,
    delimiter: Seq<char>,
) -> Seq<LatestObject> {
    rows.filter(
        |row: LatestObject|
            common_prefix_of(display_key_of(row.key@, bucket), prefix, delimiter) is None,
    )
}

/// Whether `contents` shows the rows that are listed as objects, in their order.
pub open spec fn are_contents(
    entries: Seq<(String, VersionMeta)>,
    rows: Seq<LatestObject>,
    bucket: Seq<char>,
    prefix: Seq<char>,
    delimiter: Seq<char>,
    contents: Seq<ContentEntry>,
) -> bool {
    let leaves = leaf_rows(rows, bucket, prefix, delimiter);
    &&& contents.len() == leaves.len()
    &&& forall|a: int|
        0 <= a < contents.len() ==> content_texts(#[trigger] contents[a]) == content_of(
            entries,
            leaves[a],
            bucket,
        )
}

/// Whether `list` holds `text`.
pub open spec fn has_text(list: Seq<String>, text: Seq<char>) -> bool {
    exists|a: int| 0 <= a < list.len() && (#[trigger] list[a])@ == text
}

/// Whether the texts of `list` stand in order, each once.
pub open spec fn in_order(list: Seq<String>) -> bool {
    forall|a: int, b: int|
        0 <= a < b < list.len() ==> text_lt((#[trigger] list[a])@, (#[trigger] list[b])@)
}

/// Whether one of the rows is listed under the common prefix `text`.
pub open spec fn has_prefix(
    rows: Seq<LatestObject>,
    bucket: Seq<char>,
    prefix: Seq<char>,
    delimiter: Seq<char>,
    text: Seq<char>,
) -> bool {
    exists|a: int|
        0 <= a < rows.len() && common_prefix_of(
            display_key_of((#[trigger] rows[a]).key@, bucket),
            prefix,
            delimiter,
        ) == Some(text)
}

/// Put a text into a list in order, unless the list holds it.
fn insert_text(list: &mut Vec<String>, text: String)
    requires
        in_order(old(list)@),
    ensures
        in_order(final(list)@),
        forall|t: Seq<char>| #[trigger]
            has_text(final(list)@, t) <==> has_text(old(list)@, t) || t == text@,
{
    let ghost before = list@;
    let mut at: usize = 0;
    while at < list.len() && text_before(list[at].as_str(), text.as_str())
        invariant
            at <= list@.len(),
            list@ == before,
            forall|a: int| 0 <= a < at ==> text_lt((#[trigger] list@[a])@, text@),
        decreases list.len() - at,
    {
        at += 1;
    }
    if at < list.len() && same_text(list[at].as_str(), text.as_str()) {
        assert(has_text(list@, text@));
        return ;
    }
    let ghost new_text = text;
    list.insert(at, text);
    proof {
        assert(list@ == before.insert(at as int, new_text));
        assert forall|a: int, b: int| 0 <= a < b < list@.len() implies text_lt(
            (#[trigger] list@[a])@,
            (#[trigger] list@[b])@,
        ) by {
            if a == at {
                assert(list@[b] == before[b - 1]);
                lemma_text_lt_total(before[at as int]@, new_text@);
                if b - 1 > at {
                    assert(text_lt(before[at as int]@, before[b - 1]@));
                    lemma_text_lt_transitive(new_text@, before[at as int]@, before[b - 1]@);
                }
            } else if b == at {
                assert(list@[a] == before[a]);
            } else if b < at {
                assert(list@[a] == before[a] && list@[b] == before[b]);
            } else if a > at {
                assert(list@[a] == before[a - 1] && list@[b] == before[b - 1]);
            } else {
                assert(list@[a] == before[a] && list@[b] == before[b - 1]);
            }
        }
        assert forall|t: Seq<char>| #[trigger]
            has_text(list@, t) <==> has_text(before, t) || t == new_text@ by {
            if has_text(list@, t) {
                let a = choose|a: int| 0 <= a < list@.len() && (#[trigger] list@[a])@ == t;
                if a < at {
                    assert(list@[a] == before[a]);
                } else if a > at {
                    assert(list@[a] == before[a - 1]);
                }
            }
            if has_text(before, t) {
                let a = choose|a: int| 0 <= a < before.len() && (#[trigger] before[a])@ == t;
                if a < at {
                    assert(list@[a] == before[a]);
                } else {
                    assert(list@[a + 1] == before[a]);
                }
            }
            if t == new_text@ {
                assert(list@[at as int]@ == t);
            }
        }
    }
}

/// A page of a listing.
pub struct ListPage {
    pub contents: Vec<ContentEntry>,
    pub common_prefixes: Vec<String>,
    pub is_truncated: bool,
    pub next_marker: Option<String>,
}

/// The rows that a page with room for `max_keys` rows shows.
pub open spec fn shown_rows(rows: Seq<LatestObject>, max_keys: nat) -> Seq<LatestObject> {
    if rows.len() > max_keys {
        rows.take(max_keys as int)
    } else {
        rows
    }
}

/// Whether `page` shows the first `max_keys` rows, with the key of the last of them as the next
/// marker if there are more.
pub open spec fn is_page(
    page: ListPage,
    entries: Seq<(String, VersionMeta)>,
    rows: Seq<LatestObject>,
    bucket: Seq<char>,
    prefix: Seq<char>,
    delimiter: Seq<char>,
    max_keys: nat,
) -> bool {
    let shown = shown_rows(rows, max_keys);
    &&& are_contents(entries, shown, bucket, prefix, delimiter, page.contents@)
    &&& in_order(page.common_prefixes@)
    &&& forall|text: Seq<char>| #[trigger]
        has_text(page.common_prefixes@, text) <==> has_prefix(
            shown,
            bucket,
            prefix,
            delimiter,
            text,
        )
    &&& page.is_truncated == (rows.len() > max_keys)
    &&& page.next_marker is Some == (page.is_truncated && max_keys > 0)
    &&& page.next_marker matches Some(m) ==> m@ == display_key_of(rows[max_keys - 1].key@, bucket)
}

/// The page of a listing that shows the first `max_keys` rows. Without a delimiter nothing is
/// listed under a common prefix.
pub fn list_page(
    entries: &[(String, VersionMeta)],
    rows: &[LatestObject],
    bucket: &str,
    prefix: &str,
    delimiter: &str,
    max_keys: usize,
) -> (page: ListPage)
    requires
        forall|a: int| 0 <= a < rows@.len() ==> (#[trigger] rows@[a]).index < entries@.len(),
    ensures
        is_page(page, entries@, rows@, bucket@, prefix@, delimiter@, max_keys as nat),
{
    let is_truncated: bool = rows.len() > max_keys;
    let count: usize = if is_truncated {
        max_keys
    } else {
        rows.len()
    };
    let ghost shown = shown_rows(rows@, max_keys as nat);
    assert(shown =~= rows@.take(count as int));
    let next_marker: Option<String> = if is_truncated && max_keys > 0 {
        Some(display_key(rows[max_keys - 1].key.as_str(), bucket))
    } else {
        None
    };
    let mut contents: Vec<ContentEntry> = Vec::new();
    let mut common_prefixes: Vec<String> = Vec::new();
    let mut n: usize = 0;
    proof {
        reveal(Seq::filter);
        assert(shown.take(0) =~= Seq::empty());
    }
    while n < count
        invariant
            n <= count <= rows@.len(),
            shown == rows@.take(count as int),
            forall|a: int| 0 <= a < rows@.len() ==> (#[trigger] rows@[a]).index < entries@.len(),
            are_contents(
                entries@,
                shown.take(n as int),
                bucket@,
                prefix@,
                delimiter@,
                contents@,
            ),
            in_order(common_prefixes@),
            forall|text: Seq<char>| #[trigger]
                has_text(common_prefixes@, text) <==> has_prefix(
                    shown.take(n as int),
                    bucket@,
                    prefix@,
                    delimiter@,
                    text,
                ),
        decreases count - n,
    {
        let index: usize = rows[n].index;
        let ghost row = rows@[n as int];
        let ghost contents_before = contents@;
        let ghost prefixes_before = common_prefixes@;
        let shown_key = display_key(rows[n].key.as_str(), bucket);
        let common = common_prefix(shown_key.as_str(), prefix, delimiter);
        let ghost common_text = common_prefix_of(shown_key@, prefix@, delimiter@);
        match common {
            Some(text) => {
                insert_text(&mut common_prefixes, text);
            },
            None => {
                contents.push(
                    ContentEntry {
                        key: shown_key,
                        last_modified: entries[index].1.last_modified.clone(),
                        etag: etag(entries[index].1.checksum),
                        size: entries[index].1.data_size,
                    },
                );
            },
        }
        proof {
            let here = shown.take(n as int);
            let next = shown.take(n + 1);
            let keep = |row: LatestObject|
                common_prefix_of(display_key_of(row.key@, bucket@), prefix@, delimiter@) is None;
            assert(next.drop_last() =~= here);
            assert(next.last() == row);
            reveal(Seq::filter);
            assert(next.filter(keep) == if keep(row) {
                here.filter(keep).push(row)
            } else {
                here.filter(keep)
            });
            assert(leaf_rows(next, bucket@, prefix@, delimiter@) == next.filter(keep));
            assert(leaf_rows(here, bucket@, prefix@, delimiter@) == here.filter(keep));
            assert forall|a: int| 0 <= a < contents@.len() implies content_texts(
                #[trigger] contents@[a],
            ) == content_of(entries@, next.filter(keep)[a], bucket@) by {
                if a < contents_before.len() {
                    assert(contents@[a] == contents_before[a]);
                    assert(content_texts(contents_before[a]) == content_of(
                        entries@,
                        here.filter(keep)[a],
                        bucket@,
                    ));
                }
            }
            assert forall|text: Seq<char>| #[trigger]
                has_text(common_prefixes@, text) <==> has_prefix(
                    next,
                    bucket@,
                    prefix@,
                    delimiter@,
                    text,
                ) by {
                assert(has_text(prefixes_before, text) <==> has_prefix(
                    here,
                    bucket@,
                    prefix@,
                    delimiter@,
                    text,
                ));
                if has_prefix(here, bucket@, prefix@, delimiter@, text) {
                    let a = choose|a: int|
                        0 <= a < here.len() && common_prefix_of(
                            display_key_of((#[trigger] here[a]).key@, bucket@),
                            prefix@,
                            delimiter@,
                        ) == Some(text);
                    assert(next[a] == here[a]);
                }
                if has_prefix(next, bucket@, prefix@, delimiter@, text) {
                    let a = choose|a: int|
                        0 <= a < next.len() && common_prefix_of(
                            display_key_of((#[trigger] next[a]).key@, bucket@),
                            prefix@,
                            delimiter@,
                        ) == Some(text);
                    if a < n {
                        assert(next[a] == here[a]);
                    }
                }
                if common_text == Some(text) {
                    assert(next[n as int] == row);
                }
            }
        }
        n += 1;
    }
    assert(shown.take(count as int) =~= shown);
    ListPage { contents, common_prefixes, is_truncated, next_marker }
}

/// The text, if there is one.
pub open spec fn text_of(text: Option<String>) -> Option<Seq<char>> {
    match text {
        Some(t) => Some(t@),
        None => None,
    }
}

/// The text, or the empty text.
pub open spec fn text_or_empty(text: Option<String>) -> Seq<char> {
    match text {
        Some(t) => t@,
        None => Seq::empty(),
    }
}

/// How many objects a page shows.
pub open spec fn max_keys_of(params: ListObjectsQuery) -> nat {
    match params.max_keys {
        Some(n) => n as nat,
        None => 1000,
    }
}

/// What is scanned for a listing: the prefix of the keys, and how many versions at most.
pub struct ListScan {
    pub prefix: String,
    pub limit: usize,
}

fn max_keys(params: &ListObjectsQuery) -> (r: usize)
    ensures
        r == max_keys_of(*params),
        r <= u32::MAX,
{
    match params.max_keys {
        Some(n) => n as usize,
        None => 1000,
    }
}

/// What is scanned for a listing of a bucket: every version under the prefix, however few objects
/// the page shows.
pub fn list_scan(bucket: &str, params: &ListObjectsQuery) -> (r: ListScan)
    ensures
        r.prefix@ == bucket@ + "/"@ + text_or_empty(params.prefix),
        r.limit == usize::MAX,
{
    let prefix: String = match &params.prefix {
        Some(p) => join3(bucket, "/", p.as_str()),
        None => {
            let p = join2(bucket, "/");
            assert(p@ =~= bucket@ + "/"@ + Seq::<char>::empty());
            p
        },
    };
    ListScan { prefix, limit: usize::MAX }
}

/// The document with a page of a listing.
pub open spec fn page_document(bucket: Seq<char>, params: ListObjectsQuery, page: ListPage) -> Seq<
    char,
> {
    list_document(
        bucket,
        params.prefix,
        params.marker,
        max_keys_of(params),
        page.is_truncated,
        page.next_marker,
        page.contents@,
        page.common_prefixes@,
    )
}

/// Whether `r` is the reply with the page of a listing of `bucket` that `params` asks for.
pub open spec fn is_listing(
    r: Reply,
    entries: Seq<(String, VersionMeta)>,
    bucket: Seq<char>,
    params: ListObjectsQuery,
) -> bool {
    exists|rows: Seq<LatestObject>, page: ListPage|
        {
            &&& #[trigger] are_rows(
                entries,
                full_marker_of(bucket, text_of(params.marker)),
                rows,
            )
            &&& #[trigger] is_page(
                page,
                entries,
                rows,
                bucket,
                text_or_empty(params.prefix),
                text_or_empty(params.delimiter),
                max_keys_of(params),
            )
            &&& is_document(r, 200, page_document(bucket, params, page))
        }
}

/// The reply to a listing of the objects of a bucket, from what was scanned for it.
pub fn list_objects(
    bucket: &str,
    params: &ListObjectsQuery,
    scan: &StorageResult<Vec<(String, VersionMeta)>>,
) -> (r: Reply)
    ensures
        match scan {
            Ok(entries) => is_listing(r, entries@, bucket@, *params),
            Err(e) => is_error(r, *e),
        },
{
    let entries: &Vec<(String, VersionMeta)> = match scan {
        Ok(entries) => entries,
        Err(e) => {
            return error_to_response(e);
        },
    };
    let rows = list_rows(entries.as_slice(), bucket, &params.marker);
    let prefix: &str = match &params.prefix {
        Some(p) => p.as_str(),
        None => "",
    };
    let delimiter: &str = match &params.delimiter {
        Some(d) => d.as_str(),
        None => "",
    };
    proof {
        reveal_strlit("");
        assert(prefix@ =~= text_or_empty(params.prefix));
        assert(delimiter@ =~= text_or_empty(params.delimiter));
        assert forall|a: int| 0 <= a < rows@.len() implies (#[trigger] rows@[a]).index
            < entries@.len() by {
            lemma_latest_is_committed(entries@, rows@[a].index as int, rows@[a].key@);
        }
    }
    let max: usize = max_keys(params);
    let page = list_page(entries.as_slice(), rows.as_slice(), bucket, prefix, delimiter, max);
    let body = list_objects_xml(
        &ListXmlParams {
            bucket_name: bucket,
            prefix: &params.prefix,
            marker: &params.marker,
            max_keys: max,
            is_truncated: page.is_truncated,
            next_marker: &page.next_marker,
            contents: page.contents.as_slice(),
            common_prefixes: page.common_prefixes.as_slice(),
        },
    );
    document(200, body)
}

/// The marker that page `p` of a listing was asked with: none for the first page, and for every
/// other page the next marker of the page before.
pub open spec fn marker_at(pages: Seq<ListPage>, p: int) -> Option<Seq<char>> {
    if p == 0 {
        None
    } else {
        text_of(pages[p - 1].next_marker)
    }
}

/// Whether `pages` are all the pages of a listing without a delimiter, each asked with the next
/// marker of the page before, up to the first that is not truncated. `rows[p]` are the rows that
/// page `p` was cut from.
pub open spec fn are_pages(
    entries: Seq<(String, VersionMeta)>,
    bucket: Seq<char>,
    prefix: Seq<char>,
    max_keys: nat,
    pages: Seq<ListPage>,
    rows: Seq<Seq<LatestObject>>,
) -> bool {
    &&& pages.len() > 0
    &&& rows.len() == pages.len()
    &&& forall|p: int|
        0 <= p < pages.len() ==> are_rows(
            entries,
            full_marker_of(bucket, marker_at(pages, p)),
            #[trigger] rows[p],
        ) && is_page(
            pages[p],
            entries,
            rows[p],
            bucket,
            prefix,
            Seq::<char>::empty(),
            max_keys,
        ) && (pages[p].is_truncated <==> p + 1 < pages.len())
}

/// Whether the object keys of `entries` are all below `bucket`.
pub open spec fn are_of_bucket(entries: Seq<(String, VersionMeta)>, bucket: Seq<char>) -> bool {
    forall|i: int|
        0 <= i < entries.len() ==> (bucket + "/"@).is_prefix_of(
            object_key_in((#[trigger] entries[i]).0@),
        )
}

/// The whole key of entry `a` on page `p`.
pub open spec fn key_on_page(
    pages: Seq<ListPage>,
    bucket: Seq<char>,
    p: int,
    a: int,
) -> Seq<char> {
    bucket + "/"@ + pages[p].contents@[a].key@
}

/// Whether the object `key` is entry `a` of page `p`.
pub open spec fn is_shown_at(
    pages: Seq<ListPage>,
    bucket: Seq<char>,
    p: int,
    a: int,
    key: Seq<char>,
) -> bool {
    0 <= p < pages.len() && 0 <= a < pages[p].contents@.len() && key_on_page(pages, bucket, p, a)
        == key
}

/// Whether entry `a` of page `p` shows the version `i`, and that is the latest of its object.
pub open spec fn shows_version(
    entries: Seq<(String, VersionMeta)>,
    pages: Seq<ListPage>,
    bucket: Seq<char>,
    p: int,
    a: int,
    i: int,
) -> bool {
    let shown = pages[p].contents@[a];
    let meta = entries[i].1;
    &&& is_latest(entries, i, key_on_page(pages, bucket, p, a))
    &&& shown.last_modified@ == meta.last_modified@
    &&& shown.etag@ == quoted(hex(meta.checksum as nat))
    &&& shown.size == meta.data_size
}

/// Whether entry `a` of page `p` shows the latest version of its object.
pub open spec fn shows_latest(
    entries: Seq<(String, VersionMeta)>,
    pages: Seq<ListPage>,
    bucket: Seq<char>,
    p: int,
    a: int,
) -> bool {
    exists|i: int| #[trigger] shows_version(entries, pages, bucket, p, a, i)
}

proof fn lemma_no_leaf_is_left_out(
    rows: Seq<LatestObject>,
    bucket: Seq<char>,
    prefix: Seq<char>,
)
    ensures
        leaf_rows(rows, bucket, prefix, Seq::empty()) == rows,
    decreases rows.len(),
{
    reveal(Seq::filter);
    if rows.len() > 0 {
        lemma_no_leaf_is_left_out(rows.drop_last(), bucket, prefix);
        assert(rows =~= rows.drop_last().push(rows.last()));
    } else {
        assert(leaf_rows(rows, bucket, prefix, Seq::empty()) =~= rows);
    }
}

proof fn lemma_whole_key(
    entries: Seq<(String, VersionMeta)>,
    bucket: Seq<char>,
    i: int,
    key: Seq<char>,
)
    requires
        are_of_bucket(entries, bucket),
        is_latest(entries, i, key),
    ensures
        bucket + "/"@ + display_key_of(key, bucket) == key,
{
    lemma_latest_is_committed(entries, i, key);
    let p = bucket + "/"@;
    assert(p.is_prefix_of(object_key_in(entries[i].0@)));
    assert(p + key.skip(p.len() as int) =~= key);
}

/// Page `p` shows the first rows behind its marker, one entry for each.
proof fn lemma_page(
    entries: Seq<(String, VersionMeta)>,
    bucket: Seq<char>,
    prefix: Seq<char>,
    max_keys: nat,
    pages: Seq<ListPage>,
    rows: Seq<Seq<LatestObject>>,
    p: int,
)
    requires
        max_keys > 0,
        are_of_bucket(entries, bucket),
        are_pages(entries, bucket, prefix, max_keys, pages, rows),
        0 <= p < pages.len(),
    ensures
        pages[p].contents@.len() <= max_keys,
        pages[p].contents@.len() <= rows[p].len(),
        p + 1 == pages.len() ==> pages[p].contents@.len() == rows[p].len(),
        p + 1 < pages.len() ==> pages[p].contents@.len() == max_keys && full_marker_of(
            bucket,
            marker_at(pages, p + 1),
        ) == Some(rows[p][max_keys - 1].key@),
        forall|a: int|
            0 <= a < pages[p].contents@.len() ==> #[trigger] key_on_page(pages, bucket, p, a)
                == rows[p][a].key@ && content_texts(pages[p].contents@[a]) == content_of(
                entries,
                rows[p][a],
                bucket,
            ),
{
    let shown = shown_rows(rows[p], max_keys);
    lemma_no_leaf_is_left_out(shown, bucket, prefix);
    assert(are_rows(entries, full_marker_of(bucket, marker_at(pages, p)), rows[p]));
    assert forall|a: int| 0 <= a < pages[p].contents@.len() implies #[trigger] key_on_page(
        pages,
        bucket,
        p,
        a,
    ) == rows[p][a].key@ && content_texts(pages[p].contents@[a]) == content_of(
        entries,
        rows[p][a],
        bucket,
    ) by {
        assert(shown[a] == rows[p][a]);
        assert(content_texts(pages[p].contents@[a]) == content_of(entries, shown[a], bucket));
        lemma_whole_key(entries, bucket, rows[p][a].index as int, rows[p][a].key@);
    }
    if p + 1 < pages.len() {
        let last = rows[p][max_keys - 1];
        lemma_whole_key(entries, bucket, last.index as int, last.key@);
        assert(marker_at(pages, p + 1) == text_of(pages[p].next_marker));
    }
}

/// What page `q` shows is behind what an earlier page `p` shows.
proof fn lemma_pages_are_in_order(
    entries: Seq<(String, VersionMeta)>,
    bucket: Seq<char>,
    prefix: Seq<char>,
    max_keys: nat,
    pages: Seq<ListPage>,
    rows: Seq<Seq<LatestObject>>,
    p: int,
    a: int,
    q: int,
    b: int,
)
    requires
        max_keys > 0,
        are_of_bucket(entries, bucket),
        are_pages(entries, bucket, prefix, max_keys, pages, rows),
        0 <= p < q < pages.len(),
        0 <= a < pages[p].contents@.len(),
        0 <= b < pages[q].contents@.len(),
    ensures
        text_lt(key_on_page(pages, bucket, p, a), key_on_page(pages, bucket, q, b)),
    decreases q - p,
{
    lemma_page(entries, bucket, prefix, max_keys, pages, rows, p);
    lemma_page(entries, bucket, prefix, max_keys, pages, rows, q);
    lemma_page(entries, bucket, prefix, max_keys, pages, rows, q - 1);
    let x = key_on_page(pages, bucket, p, a);
    let y = key_on_page(pages, bucket, q, b);
    let last = key_on_page(pages, bucket, q - 1, max_keys - 1);
    // The marker of page `q` is the last key of the page before.
    assert(are_rows(entries, full_marker_of(bucket, marker_at(pages, q)), rows[q]));
    assert(is_after(rows[q][b].key@, Some(last)));
    if p + 1 < q {
        lemma_pages_are_in_order(
            entries,
            bucket,
            prefix,
            max_keys,
            pages,
            rows,
            p,
            a,
            q - 1,
            max_keys - 1,
        );
        lemma_text_lt_transitive(x, last, y);
    } else if a < max_keys - 1 {
        assert(are_rows(entries, full_marker_of(bucket, marker_at(pages, p)), rows[p]));
        assert(text_lt(rows[p][a].key@, rows[p][max_keys - 1].key@));
        lemma_text_lt_transitive(x, last, y);
    }
}

/// Every object behind the marker of page `p` is shown on that page or on a later one.
proof fn lemma_object_is_shown(
    entries: Seq<(String, VersionMeta)>,
    bucket: Seq<char>,
    prefix: Seq<char>,
    max_keys: nat,
    pages: Seq<ListPage>,
    rows: Seq<Seq<LatestObject>>,
    p: int,
    i: int,
    key: Seq<char>,
) -> (at: (int, int))
    requires
        max_keys > 0,
        are_of_bucket(entries, bucket),
        are_pages(entries, bucket, prefix, max_keys, pages, rows),
        0 <= p < pages.len(),
        is_latest(entries, i, key),
        is_after(key, full_marker_of(bucket, marker_at(pages, p))),
    ensures
        is_shown_at(pages, bucket, at.0, at.1, key),
    decreases pages.len() - p,
{
    lemma_page(entries, bucket, prefix, max_keys, pages, rows, p);
    assert(are_rows(entries, full_marker_of(bucket, marker_at(pages, p)), rows[p]));
    let a = choose|a: int| 0 <= a < rows[p].len() && (#[trigger] rows[p][a]).key@ == key;
    if a < pages[p].contents@.len() {
        assert(key_on_page(pages, bucket, p, a) == key);
        (p, a)
    } else {
        assert(text_lt(rows[p][max_keys - 1].key@, rows[p][a].key@));
        lemma_object_is_shown(
            entries,
            bucket,
            prefix,
            max_keys,
            pages,
            rows,
            p + 1,
            i,
            key,
        )
    }
}

/// The pages of a listing, each asked with the next marker of the page before, show every object
/// with a committed version once, as its latest version and in the order of the keys, and nothing
/// else. No page shows more objects than it has room for.
pub proof fn law_pages_show_each_object_once(
    entries: Seq<(String, VersionMeta)>,
    bucket: Seq<char>,
    prefix: Seq<char>,
    max_keys: nat,
    pages: Seq<ListPage>,
    rows: Seq<Seq<LatestObject>>,
)
    requires
        max_keys > 0,
        are_of_bucket(entries, bucket),
        are_pages(entries, bucket, prefix, max_keys, pages, rows),
    ensures
        forall|p: int| 0 <= p < pages.len() ==> (#[trigger] pages[p]).contents@.len() <= max_keys,
        // Each object is shown.
        forall|i: int, key: Seq<char>| #[trigger]
            is_latest(entries, i, key) ==> exists|p: int, a: int|
                #[trigger] is_shown_at(pages, bucket, p, a, key),
        // What is shown is the latest version of an object.
        forall|p: int, a: int|
            0 <= p < pages.len() && 0 <= a < pages[p].contents@.len() ==> #[trigger] shows_latest(
                entries,
                pages,
                bucket,
                p,
                a,
            ),
        // No object is shown twice.
        forall|p: int, a: int, q: int, b: int|
            0 <= p <= q < pages.len() && 0 <= a < pages[p].contents@.len() && 0 <= b
                < pages[q].contents@.len() && (p == q ==> a < b) ==> text_lt(
                #[trigger] key_on_page(pages, bucket, p, a),
                #[trigger] key_on_page(pages, bucket, q, b),
            ),
{
    assert forall|p: int| 0 <= p < pages.len() implies (#[trigger] pages[p]).contents@.len()
        <= max_keys by {
        lemma_page(entries, bucket, prefix, max_keys, pages, rows, p);
    }
    assert forall|i: int, key: Seq<char>| #[trigger] is_latest(entries, i, key) implies exists|
        p: int,
        a: int,
    | #[trigger] is_shown_at(pages, bucket, p, a, key) by {
        let at = lemma_object_is_shown(
            entries,
            bucket,
            prefix,
            max_keys,
            pages,
            rows,
            0,
            i,
            key,
        );
        assert(is_shown_at(pages, bucket, at.0, at.1, key));
    }
    assert forall|p: int, a: int|
        0 <= p < pages.len() && 0 <= a < pages[p].contents@.len() implies #[trigger] shows_latest(
        entries,
        pages,
        bucket,
        p,
        a,
    ) by {
        lemma_page(entries, bucket, prefix, max_keys, pages, rows, p);
        assert(are_rows(entries, full_marker_of(bucket, marker_at(pages, p)), rows[p]));
        let i = rows[p][a].index as int;
        assert(key_on_page(pages, bucket, p, a) == rows[p][a].key@);
        assert(content_texts(pages[p].contents@[a]) == content_of(entries, rows[p][a], bucket));
        assert(shows_version(entries, pages, bucket, p, a, i));
    }
    assert forall|p: int, a: int, q: int, b: int|
        0 <= p <= q < pages.len() && 0 <= a < pages[p].contents@.len() && 0 <= b
            < pages[q].contents@.len() && (p == q ==> a < b) implies text_lt(
        #[trigger] key_on_page(pages, bucket, p, a),
        #[trigger] key_on_page(pages, bucket, q, b),
    ) by {
        if p < q {
            lemma_pages_are_in_order(
                entries,
                bucket,
                prefix,
                max_keys,
                pages,
                rows,
                p,
                a,
                q,
                b,
            );
        } else {
            lemma_page(entries, bucket, prefix, max_keys, pages, rows, p);
            assert(are_rows(entries, full_marker_of(bucket, marker_at(pages, p)), rows[p]));
            assert(text_lt(rows[p][a].key@, rows[p][b].key@));
        }
    }
}

/// The common prefix under which an object is listed is a part of its key: it starts with the asked
/// prefix, the key starts with it, and behind the asked prefix the delimiter stands at its end and
/// nowhere else. An object without the delimiter behind the asked prefix has none.
pub proof fn law_common_prefix_is_part_of_the_key(
    display_key: Seq<char>,
    prefix: Seq<char>,
    delimiter: Seq<char>,
)
    requires
        prefix.is_prefix_of(display_key),
    ensures
        match common_prefix_of(display_key, prefix, delimiter) {
            Some(t) => {
                &&& delimiter.len() > 0
                &&& prefix.is_prefix_of(t)
                &&& t.is_prefix_of(display_key)
                &&& prefix.len() + delimiter.len() <= t.len()
                &&& occurs_at(t, delimiter, t.len() - delimiter.len())
                &&& forall|j: int|
                    prefix.len() <= j && #[trigger] occurs_at(t, delimiter, j) ==> j == t.len()
                        - delimiter.len()
            },
            None => delimiter.len() == 0 || forall|j: int|
                prefix.len() <= j ==> !#[trigger] occurs_at(display_key, delimiter, j),
        },
{
    let suffix = display_key.skip(prefix.len() as int);
    let n = prefix.len() as int;
    match common_prefix_of(display_key, prefix, delimiter) {
        Some(t) => {
            let at = first_at(suffix, delimiter);
            assert(is_first_at(suffix, delimiter, at));
            let end = at + delimiter.len();
            assert(t == prefix + suffix.take(end));
            assert(t.subrange(0, n) =~= prefix);
            assert(display_key.subrange(0, t.len() as int) =~= t);
            assert(t.subrange(n + at, n + end) =~= suffix.subrange(at, end));
            assert forall|j: int| n <= j && #[trigger] occurs_at(t, delimiter, j) implies j
                == t.len() - delimiter.len() by {
                assert(t.subrange(j, j + delimiter.len()) =~= suffix.subrange(
                    j - n,
                    j - n + delimiter.len(),
                ));
                assert(occurs_at(suffix, delimiter, j - n));
            }
        },
        None => {
            if delimiter.len() > 0 {
                assert forall|j: int| n <= j implies !#[trigger] occurs_at(
                    display_key,
                    delimiter,
                    j,
                ) by {
                    if occurs_at(display_key, delimiter, j) {
                        assert(suffix.subrange(j - n, j - n + delimiter.len())
                            =~= display_key.subrange(j, j + delimiter.len()));
                        lemma_first_exists(suffix, delimiter, j - n);
                    }
                }
            }
        },
    }
}

proof fn lemma_first_exists(s: Seq<char>, p: Seq<char>, i: int)
    requires
        occurs_at(s, p, i),
    ensures
        has_first(s, p),
    decreases i,
{
    if exists|j: int| 0 <= j < i && #[trigger] occurs_at(s, p, j) {
        let j = choose|j: int| 0 <= j < i && #[trigger] occurs_at(s, p, j);
        lemma_first_exists(s, p, j);
    } else {
        assert(is_first_at(s, p, i));
    }
}

/// All objects whose keys start with a common prefix of a listing are listed under it.
pub proof fn law_keys_below_a_common_prefix_share_it(
    display_key: Seq<char>,
    other: Seq<char>,
    prefix: Seq<char>,
    delimiter: Seq<char>,
)
    requires
        prefix.is_prefix_of(display_key),
        common_prefix_of(display_key, prefix, delimiter) is Some,
        common_prefix_of(display_key, prefix, delimiter).unwrap().is_prefix_of(other),
    ensures
        common_prefix_of(other, prefix, delimiter) == common_prefix_of(
            display_key,
            prefix,
            delimiter,
        ),
{
    let t = common_prefix_of(display_key, prefix, delimiter).unwrap();
    let n = prefix.len() as int;
    let d = delimiter.len() as int;
    law_common_prefix_is_part_of_the_key(display_key, prefix, delimiter);
    assert(other.subrange(0, n) =~= t.subrange(0, n));
    let suffix = other.skip(n);
    let at = t.len() - d - n;
    assert(suffix.subrange(at, at + d) =~= t.subrange(t.len() - d, t.len() as int));
    assert forall|j: int| 0 <= j < at implies !#[trigger] occurs_at(suffix, delimiter, j) by {
        if occurs_at(suffix, delimiter, j) {
            assert(t.subrange(n + j, n + j + d) =~= suffix.subrange(j, j + d));
            assert(occurs_at(t, delimiter, n + j));
        }
    }
    lemma_first_at(suffix, delimiter, at);
    assert(prefix + suffix.take(at + d) =~= t);
}

/// Whether a page shows the object of a row by itself, with what its version says.
pub open spec fn shows_row(
    page: ListPage,
    entries: Seq<(String, VersionMeta)>,
    row: LatestObject,
    display_key: Seq<char>,
) -> bool {
    let meta = entries[row.index as int].1;
    exists|b: int|
        0 <= b < page.contents@.len() && (#[trigger] page.contents@[b]).key@ == display_key
            && page.contents@[b].size == meta.data_size && page.contents@[b].last_modified@
            == meta.last_modified@ && page.contents@[b].etag@ == quoted(hex(meta.checksum as nat))
}

/// A page of a listing shows each object that it has room for: by itself where the delimiter does
/// not stand behind the asked prefix in its key, and otherwise under a common prefix that is a part
/// of its key. It shows no more entries than it has room for, and says whether there are more
/// objects.
pub proof fn law_page_shows_each_object_or_its_prefix(
    page: ListPage,
    entries: Seq<(String, VersionMeta)>,
    rows: Seq<LatestObject>,
    bucket: Seq<char>,
    prefix: Seq<char>,
    delimiter: Seq<char>,
    max_keys: nat,
    a: int,
    display_key: Seq<char>,
)
    requires
        is_page(page, entries, rows, bucket, prefix, delimiter, max_keys),
        0 <= a < rows.len(),
        a < max_keys,
        rows[a].key@ == bucket + "/"@ + display_key,
        prefix.is_prefix_of(display_key),
    ensures
        page.contents@.len() <= max_keys,
        page.is_truncated <==> rows.len() > max_keys,
        if delimiter.len() == 0 || forall|j: int|
            prefix.len() <= j ==> !#[trigger] occurs_at(display_key, delimiter, j) {
            shows_row(page, entries, rows[a], display_key)
        } else {
            exists|b: int|
                0 <= b < page.common_prefixes@.len() && {
                    let t = (#[trigger] page.common_prefixes@[b])@;
                    prefix.is_prefix_of(t) && t.is_prefix_of(display_key) && delimiter.is_suffix_of(
                        t,
                    )
                }
        },
{
    let shown = shown_rows(rows, max_keys);
    let leaves = leaf_rows(shown, bucket, prefix, delimiter);
    let p = bucket + "/"@;
    assert(rows[a].key@.subrange(0, p.len() as int) =~= p);
    assert(rows[a].key@.skip(p.len() as int) =~= display_key);
    assert(display_key_of(rows[a].key@, bucket) == display_key);
    assert(shown[a] == rows[a]);
    let is_leaf = |row: LatestObject|
        common_prefix_of(display_key_of(row.key@, bucket), prefix, delimiter) is None;
    shown.lemma_filter_len(is_leaf);
    law_common_prefix_is_part_of_the_key(display_key, prefix, delimiter);
    match common_prefix_of(display_key, prefix, delimiter) {
        None => {
            shown.lemma_filter_contains(is_leaf, a);
            let b = choose|b: int| 0 <= b < leaves.len() && leaves[b] == shown[a];
            assert(content_texts(page.contents@[b]) == content_of(entries, leaves[b], bucket));
        },
        Some(t) => {
            assert(occurs_at(t, delimiter, t.len() - delimiter.len()));
            assert(t.subrange(t.len() - delimiter.len(), t.len() as int) == delimiter);
            assert(occurs_at(display_key, delimiter, t.len() - delimiter.len())) by {
                let at = t.len() - delimiter.len();
                assert(display_key.subrange(at, at + delimiter.len()) =~= t.subrange(
                    at,
                    at + delimiter.len(),
                ));
            }
            assert(has_prefix(shown, bucket, prefix, delimiter, t));
            assert(has_text(page.common_prefixes@, t));
            let b = choose|b: int|
                0 <= b < page.common_prefixes@.len() && (#[trigger] page.common_prefixes@[b])@ == t;
            assert(delimiter.is_suffix_of(t));
        },
    }
}

/// The pages of a listing show every object that has a committed version on record, whatever its
/// key in the bucket is.
pub proof fn law_every_committed_object_is_listed(
    entries: Seq<(String, VersionMeta)>,
    bucket: Seq<char>,
    prefix: Seq<char>,
    max_keys: nat,
    pages: Seq<ListPage>,
    rows: Seq<Seq<LatestObject>>,
    key: Seq<char>,
    version: u64,
    i: int,
)
    requires
        max_keys > 0,
        are_of_bucket(entries, bucket),
        are_pages(entries, bucket, prefix, max_keys, pages, rows),
        0 <= i < entries.len(),
        entries[i].0@ == version_key_of(bucket + "/"@ + key, version),
        entries[i].1.status == VersionStatus::Committed,
    ensures
        exists|p: int, a: int|
            0 <= p < pages.len() && 0 <= a < pages[p].contents@.len() && (
            #[trigger] pages[p].contents@[a]).key@ == key,
{
    let object_key = bucket + "/"@ + key;
    let l = law_committed_object_has_a_latest_version(entries, object_key, version, i);
    law_pages_show_each_object_once(entries, bucket, prefix, max_keys, pages, rows);
    let (p, a) = choose|p: int, a: int| #[trigger] is_shown_at(pages, bucket, p, a, object_key);
    let head = bucket + "/"@;
    let shown = pages[p].contents@[a].key@;
    assert(key_on_page(pages, bucket, p, a) == object_key);
    assert(shown =~= (head + shown).skip(head.len() as int));
    assert(key =~= object_key.skip(head.len() as int));
}

/// A page has room for as many objects as are asked for, and for a thousand where no number is
/// asked for.
pub proof fn law_page_has_room_for_what_is_asked(params: ListObjectsQuery)
    ensures
        params.max_keys matches Some(n) ==> max_keys_of(params) == n,
        params.max_keys is None ==> max_keys_of(params) == 1000,
{
}

} // verus!
