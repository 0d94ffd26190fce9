//! S3-compatible API: request parsing, listings, replies and their XML bodies.
use crate::disk::{BucketMeta, VersionMeta};
use crate::errors::{StorageError, StorageResult};
use crate::text::{
    chars_of, contains_text, decimal_string, find_char, hex_string, join2, join3, owned,
    parse_chars, string_of, strip_prefix,
};
use crate::xml::{XmlDoc, XmlEvent};
use md5::Digest;
use vstd::prelude::*;

verus! {

use crate::metadata::{law_decimal_is_read_back, lemma_decimal_digits};
use crate::text::{
    decimal, digit_value, first_char, hex, hex_char, law_hex_is_read_back,
    lemma_first_char, lemma_first_char_unique, lemma_occurs_within, occurs,
    occurs_at, parsed,
};
use crate::xml::{end_tag, escaped, start_tag, text_element, xml_declaration};

/// The XML namespace of the documents.
pub const S3_NS: &'static str = "http://s3.amazonaws.com/doc/2006-03-01/";

/// The message for a bucket name that is taken.
pub const BUCKET_TAKEN: &'static str =
    "The requested bucket name is not available. The bucket namespace is shared across all users. Please choose a different name.";

/// The message for a bucket that cannot be deleted.
pub const BUCKET_NOT_EMPTY: &'static str =
    "The bucket you tried to delete is not empty. Please delete all objects before deleting the bucket.";

/// `path` without a slash at its start.
pub open spec fn without_root(path: Seq<char>) -> Seq<char> {
    if path.len() > 0 && path[0] == '/' {
        path.drop_first()
    } else {
        path
    }
}

/// Parse bucket and key from a full path like "/bucket/subdir/file.txt". There is none if the
/// bucket is empty.
pub fn parse_bucket_key(full_path: &str) -> (r: Option<(String, String)>)
    ensures
        ({
            let path = without_root(full_path@);
            let i = first_char(path, '/');
            &&& r is Some <==> i > 0
            &&& r matches Some((bucket, key)) ==> bucket@ == path.take(i) && key@ == (if i
                < path.len() {
                path.skip(i + 1)
            } else {
                Seq::empty()
            })
        }),
{
    let v = chars_of(full_path);
    let from: usize = if v.len() > 0 && v[0] == '/' {
        1
    } else {
        0
    };
    let path: &[char] = &v.as_slice()[from..v.len()];
    assert(path@ =~= without_root(full_path@));
    match find_char(path, '/') {
        Some(i) => {
            proof {
                lemma_first_char_unique(path@, '/', i as int);
            }
            if i == 0 {
                return None;
            }
            let bucket = string_of(&path[0..i]);
            let key = string_of(&path[i + 1..path.len()]);
            assert(bucket@ =~= path@.take(i as int));
            assert(key@ =~= path@.skip(i + 1));
            Some((bucket, key))
        },
        None => {
            proof {
                assert(path@.take(path@.len() as int) =~= path@);
                lemma_first_char_unique(path@, '/', path@.len() as int);
            }
            if path.len() == 0 {
                return None;
            }
            let bucket = string_of(path);
            assert(bucket@ =~= path@.take(path@.len() as int));
            Some((bucket, String::new()))
        },
    }
}

/// A bucket name without a slash at its end.
pub open spec fn clean_bucket_of(bucket: Seq<char>) -> Seq<char> {
    if bucket.len() > 0 && bucket.last() == '/' {
        bucket.drop_last()
    } else {
        bucket
    }
}

/// The bucket names that are allowed: not empty, without slash and colon.
pub open spec fn is_bucket_name(bucket: Seq<char>) -> bool {
    bucket.len() > 0 && !bucket.contains('/') && !bucket.contains(':')
}

/// A bucket name without a slash at its end, which some clients add.
pub fn clean_bucket(bucket: &str) -> (r: String)
    ensures
        r@ == clean_bucket_of(bucket@),
{
    let v = chars_of(bucket);
    if v.len() > 0 && v[v.len() - 1] == '/' {
        let r = string_of(&v.as_slice()[0..v.len() - 1]);
        assert(r@ =~= bucket@.drop_last());
        r
    } else {
        owned(bucket)
    }
}

/// Whether a bucket name is allowed.
pub fn is_valid_bucket(bucket: &str) -> (r: bool)
    ensures
        r == is_bucket_name(bucket@),
{
    let v = chars_of(bucket);
    v.len() > 0 && find_char(v.as_slice(), '/').is_none() && find_char(v.as_slice(), ':').is_none()
}

/// The name of a bucket to create or delete.
pub fn bucket_name(bucket: &str) -> (r: StorageResult<String>)
    ensures
        r is Ok <==> is_bucket_name(clean_bucket_of(bucket@)),
        r matches Ok(name) ==> name@ == clean_bucket_of(bucket@),
        r matches Err(e) ==> e matches StorageError::BucketNotFound(m) && m@
            == "Invalid bucket name: "@ + clean_bucket_of(bucket@),
{
    let bucket = clean_bucket(bucket);
    if is_valid_bucket(bucket.as_str()) {
        Ok(bucket)
    } else {
        Err(StorageError::BucketNotFound(join2("Invalid bucket name: ", bucket.as_str())))
    }
}

/// The name of a bucket to list.
pub fn listed_bucket(bucket: &str) -> (r: StorageResult<String>)
    ensures
        r is Ok <==> is_bucket_name(clean_bucket_of(bucket@)),
        r matches Ok(name) ==> name@ == clean_bucket_of(bucket@),
        r matches Err(e) ==> e matches StorageError::NotFound(m) && m@ == "Invalid bucket name: "@
            + clean_bucket_of(bucket@),
{
    let bucket = clean_bucket(bucket);
    if is_valid_bucket(bucket.as_str()) {
        Ok(bucket)
    } else {
        Err(StorageError::NotFound(join2("Invalid bucket name: ", bucket.as_str())))
    }
}

/// The key of an object in a bucket, if the bucket's name is allowed.
pub fn object_key(bucket: &str, key: &str) -> (r: StorageResult<String>)
    ensures
        r is Ok <==> is_bucket_name(bucket@),
        r matches Ok(k) ==> k@ == bucket@ + "/"@ + key@,
        r matches Err(e) ==> e matches StorageError::NotFound(m) && m@ == "Invalid bucket name: "@
            + bucket@,
{
    if is_valid_bucket(bucket) {
        Ok(join3(bucket, "/", key))
    } else {
        Err(StorageError::NotFound(join2("Invalid bucket name: ", bucket)))
    }
}

/// The path of an object in an allowed bucket is split into the bucket and the key again.
pub proof fn law_object_path_is_split_again(bucket: Seq<char>, key: Seq<char>)
    requires
        is_bucket_name(bucket),
    ensures
        ({
            let path = without_root("/"@ + bucket + "/"@ + key);
            let i = first_char(path, '/');
            path.take(i) == bucket && i < path.len() && path.skip(i + 1) == key
        }),
{
    reveal_strlit("/");
    let full = "/"@ + bucket + "/"@ + key;
    let path = without_root(full);
    assert(path =~= bucket + seq!['/'] + key);
    assert(path.take(bucket.len() as int) =~= bucket);
    assert(path[bucket.len() as int] == '/');
    lemma_first_char_unique(path, '/', bucket.len() as int);
    assert(path.skip(bucket.len() as int + 1) =~= key);
}

/// A Range header with two numbers is read back.
pub proof fn law_range_header_is_read_back(start: u64, end: u64)
    ensures
        range_of("bytes="@ + decimal(start as nat) + "-"@ + decimal(end as nat)) == Ok::<
            (u64, u64),
            Seq<char>,
        >((start, end)),
{
    reveal_strlit("-");
    let first = decimal(start as nat);
    let last = decimal(end as nat);
    let header = "bytes="@ + first + "-"@ + last;
    let body = header.skip("bytes="@.len() as int);
    lemma_decimal_digits(start as nat);
    law_decimal_is_read_back(start);
    law_decimal_is_read_back(end);
    assert(header.subrange(0, "bytes="@.len() as int) =~= "bytes="@);
    assert(body =~= first + seq!['-'] + last);
    let i = first.len() as int;
    assert(body.take(i) =~= first);
    assert(!first.contains('-')) by {
        if first.contains('-') {
            let j = choose|j: int| 0 <= j < first.len() && first[j] == '-';
            assert('0' <= first[j] <= '9');
        }
    }
    assert(body[i] == '-');
    lemma_first_char_unique(body, '-', i);
    assert(body.skip(i + 1) =~= last);
}

/// The message of a Range header that cannot be used, or the range.
pub open spec fn range_of(header: Seq<char>) -> Result<(u64, u64), Seq<char>> {
    if !"bytes="@.is_prefix_of(header) {
        Err("unsupported range format: "@ + header)
    } else {
        let body = header.skip("bytes="@.len() as int);
        let i = first_char(body, '-');
        if i == body.len() {
            Err("malformed range: "@ + header)
        } else {
            let first = body.take(i);
            let last = body.skip(i + 1);
            match (parsed(first, 10), parsed(last, 10)) {
                (Some(a), Some(b)) => Ok((a, b)),
                (None, _) => Err("invalid range start: "@ + first),
                (_, None) => Err("invalid range end: "@ + last),
            }
        }
    }
}

/// Parse a Range header of the form "bytes=start-end".
pub fn parse_range(header: &str) -> (r: StorageResult<(u64, u64)>)
    ensures
        match range_of(header@) {
            Ok(range) => r == StorageResult::<(u64, u64)>::Ok(range),
            Err(text) => r matches Err(e) && e matches StorageError::InvalidRange(m) && m@ == text,
        },
{
    let body: String = match strip_prefix(header, "bytes=") {
        Some(body) => body,
        None => {
            return Err(
                StorageError::InvalidRange(join2("unsupported range format: ", header)),
            );
        },
    };
    let v = chars_of(body.as_str());
    let i: usize = match find_char(v.as_slice(), '-') {
        Some(i) => {
            proof {
                lemma_first_char_unique(body@, '-', i as int);
            }
            i
        },
        None => {
            proof {
                assert(body@.take(body@.len() as int) =~= body@);
                lemma_first_char_unique(body@, '-', body@.len() as int);
            }
            return Err(StorageError::InvalidRange(join2("malformed range: ", header)));
        },
    };
    let first: &[char] = &v.as_slice()[0..i];
    let last: &[char] = &v.as_slice()[i + 1..v.len()];
    assert(first@ =~= body@.take(i as int));
    assert(last@ =~= body@.skip(i + 1));
    let start: u64 = match parse_chars(first, 10) {
        Some(n) => n,
        None => {
            return Err(
                StorageError::InvalidRange(
                    join2("invalid range start: ", string_of(first).as_str()),
                ),
            );
        },
    };
    let end: u64 = match parse_chars(last, 10) {
        Some(n) => n,
        None => {
            return Err(
                StorageError::InvalidRange(join2("invalid range end: ", string_of(last).as_str())),
            );
        },
    };
    Ok((start, end))
}

/// The status, code and message of an error.
pub struct ErrorReply {
    pub status: u16,
    pub code: String,
    pub message: String,
}

/// The status, code and message that a storage error is answered with.
pub open spec fn error_reply_of(err: StorageError) -> (u16, Seq<char>, Seq<char>) {
    match err {
        StorageError::NotFound(key) => (
            404,
            "NoSuchKey"@,
            "The specified key does not exist: "@ + key@,
        ),
        StorageError::BucketAlreadyExists(_) => (409, "BucketAlreadyExists"@, BUCKET_TAKEN@),
        StorageError::BucketNotFound(name) => (
            404,
            "NoSuchBucket"@,
            "The specified bucket does not exist: "@ + name@,
        ),
        StorageError::ChecksumMismatch { expected, actual } => (
            500,
            "InternalError"@,
            "Checksum mismatch: expected "@ + decimal(expected as nat) + ", got "@ + decimal(
                actual as nat,
            ),
        ),
        StorageError::VersionConflict => (
            409,
            "InternalError"@,
            "Version conflict: concurrent write detected"@,
        ),
        StorageError::NoHealthyDisks => (
            503,
            "ServiceUnavailable"@,
            "No healthy metadata disks available"@,
        ),
        _ => if err matches StorageError::Transient(m) && occurs(m@, "not empty"@) {
            (409, "BucketNotEmpty"@, BUCKET_NOT_EMPTY@)
        } else {
            (500, "InternalError"@, "An internal error occurred"@)
        },
    }
}

/// The status, code and message that a storage error is answered with.
pub fn storage_error_to_response(err: &StorageError) -> (r: ErrorReply)
    ensures
        (r.status, r.code@, r.message@) == error_reply_of(*err),
{
    match err {
        StorageError::NotFound(key) => ErrorReply {
            status: 404,
            code: owned("NoSuchKey"),
            message: join2("The specified key does not exist: ", key.as_str()),
        },
        StorageError::BucketAlreadyExists(_) => ErrorReply {
            status: 409,
            code: owned("BucketAlreadyExists"),
            message: owned(BUCKET_TAKEN),
        },
        StorageError::BucketNotFound(name) => ErrorReply {
            status: 404,
            code: owned("NoSuchBucket"),
            message: join2("The specified bucket does not exist: ", name.as_str()),
        },
        StorageError::ChecksumMismatch { expected, actual } => {
            let mut message = join3(
                "Checksum mismatch: expected ",
                decimal_string(*expected).as_str(),
                ", got ",
            );
            message.append(decimal_string(*actual).as_str());
            ErrorReply { status: 500, code: owned("InternalError"), message }
        },
        StorageError::VersionConflict => ErrorReply {
            status: 409,
            code: owned("InternalError"),
            message: owned("Version conflict: concurrent write detected"),
        },
        StorageError::NoHealthyDisks => ErrorReply {
            status: 503,
            code: owned("ServiceUnavailable"),
            message: owned("No healthy metadata disks available"),
        },
        StorageError::Transient(m) => {
            if contains_text(m.as_str(), "not empty") {
                ErrorReply {
                    status: 409,
                    code: owned("BucketNotEmpty"),
                    message: owned(BUCKET_NOT_EMPTY),
                }
            } else {
                internal_error()
            }
        },
        _ => internal_error(),
    }
}

fn internal_error() -> (r: ErrorReply)
    ensures
        (r.status, r.code@, r.message@) == (500u16, "InternalError"@, "An internal error occurred"@),
{
    ErrorReply {
        status: 500,
        code: owned("InternalError"),
        message: owned("An internal error occurred"),
    }
}

/// The document of an error.
pub open spec fn error_document(code: Seq<char>, message: Seq<char>) -> Seq<char> {
    xml_declaration() + start_tag("Error"@) + text_element("Code"@, code) + text_element(
        "Message"@,
        message,
    ) + end_tag("Error"@)
}

/// S3 error XML response.
pub fn s3_error_xml(code: &str, message: &str) -> (r: String)
    ensures
        r@ == error_document(code@, message@),
{
    let mut w = XmlDoc::new();
    w.start("Error");
    w.element("Code", code);
    w.element("Message", message);
    w.end("Error");
    w.finish()
}

/// The start tag of a document in the S3 namespace.
pub open spec fn root_tag(name: Seq<char>) -> Seq<char> {
    "<"@ + name + " "@ + "xmlns"@ + "=\""@ + escaped(S3_NS@) + "\">"@
}

/// The element of a bucket.
pub open spec fn bucket_element(b: BucketMeta) -> Seq<char> {
    start_tag("Bucket"@) + text_element("Name"@, b.name@) + text_element(
        "CreationDate"@,
        b.created_at@,
    ) + end_tag("Bucket"@)
}

/// The elements of buckets.
pub open spec fn bucket_elements(buckets: Seq<BucketMeta>) -> Seq<char>
    decreases buckets.len(),
{
    if buckets.len() == 0 {
        Seq::empty()
    } else {
        bucket_elements(buckets.drop_last()) + bucket_element(buckets.last())
    }
}

/// The document of a listing of buckets.
pub open spec fn buckets_document(buckets: Seq<BucketMeta>) -> Seq<char> {
    xml_declaration() + root_tag("ListAllMyBucketsResult"@) + start_tag("Owner"@) + text_element(
        "ID"@,
        "self"@,
    ) + end_tag("Owner"@) + start_tag("Buckets"@) + bucket_elements(buckets) + end_tag("Buckets"@)
        + end_tag("ListAllMyBucketsResult"@)
}

/// ListBuckets XML response.
pub fn list_buckets_xml(buckets: &[BucketMeta]) -> (r: String)
    ensures
        r@ == buckets_document(buckets@),
{
    let mut w = XmlDoc::new();
    w.event(XmlEvent::StartWith("ListAllMyBucketsResult", "xmlns", S3_NS));
    w.start("Owner");
    w.element("ID", "self");
    w.end("Owner");
    w.start("Buckets");
    let ghost head = w@;
    let mut i: usize = 0;
    assert(buckets@.take(0) =~= Seq::empty());
    assert(head + bucket_elements(buckets@.take(0)) =~= head);
    while i < buckets.len()
        invariant
            i <= buckets@.len(),
            w@ == head + bucket_elements(buckets@.take(i as int)),
        decreases buckets.len() - i,
    {
        let ghost before = w@;
        w.start("Bucket");
        w.element("Name", buckets[i].name.as_str());
        w.element("CreationDate", buckets[i].created_at.as_str());
        w.end("Bucket");
        proof {
            assert(buckets@.take(i + 1).drop_last() =~= buckets@.take(i as int));
            assert(w@ =~= before + bucket_element(buckets@[i as int]));
            assert(w@ =~= head + bucket_elements(buckets@.take(i + 1)));
        }
        i += 1;
    }
    assert(buckets@.take(buckets@.len() as int) =~= buckets@);
    w.end("Buckets");
    w.end("ListAllMyBucketsResult");
    w.finish()
}

/// A single object entry in a list response.
#[derive(Debug)]
pub struct ContentEntry {
    pub key: String,
    pub last_modified: String,
    pub etag: String,
    pub size: usize,
}

/// Query parameters for `ListObjects`.
#[derive(Debug)]
pub struct ListObjectsQuery {
    pub prefix: Option<String>,
    pub delimiter: Option<String>,
    pub marker: Option<String>,
    pub max_keys: Option<u32>,
}

/// Parameters for `list_objects_xml`.
pub struct ListXmlParams<'a> {
    pub bucket_name: &'a str,
    pub prefix: &'a Option<String>,
    pub marker: &'a Option<String>,
    pub max_keys: usize,
    pub is_truncated: bool,
    pub next_marker: &'a Option<String>,
    pub contents: &'a [ContentEntry],
    pub common_prefixes: &'a [String],
}

/// The element of a text that may be missing.
pub open spec fn optional_element(name: Seq<char>, text: Option<String>) -> Seq<char> {
    match text {
        Some(t) => text_element(name, t@),
        None => Seq::empty(),
    }
}

/// The text of a truth value.
pub open spec fn bool_text(b: bool) -> Seq<char> {
    if b {
        "true"@
    } else {
        "false"@
    }
}

/// The element of an object.
pub open spec fn content_element(e: ContentEntry) -> Seq<char> {
    start_tag("Contents"@) + text_element("Key"@, e.key@) + text_element(
        "LastModified"@,
        e.last_modified@,
    ) + text_element("ETag"@, e.etag@) + text_element("Size"@, decimal(e.size as nat))
        + text_element("StorageClass"@, "STANDARD"@) + end_tag("Contents"@)
}

/// The elements of objects.
pub open spec fn content_elements(contents: Seq<ContentEntry>) -> Seq<char>
    decreases contents.len(),
{
    if contents.len() == 0 {
        Seq::empty()
    } else {
        content_elements(contents.drop_last()) + content_element(contents.last())
    }
}

/// The element of a common prefix.
pub open spec fn prefix_element(p: String) -> Seq<char> {
    start_tag("CommonPrefixes"@) + text_element("Prefix"@, p@) + end_tag("CommonPrefixes"@)
}

/// The elements of common prefixes.
pub open spec fn prefix_elements(prefixes: Seq<String>) -> Seq<char>
    decreases prefixes.len(),
{
    if prefixes.len() == 0 {
        Seq::empty()
    } else {
        prefix_elements(prefixes.drop_last()) + prefix_element(prefixes.last())
    }
}

/// The document of a listing.
pub open spec fn list_document(
    bucket_name: Seq<char>,
    prefix: Option<String>,
    marker: Option<String>,
    max_keys: nat,
    is_truncated: bool,
    next_marker: Option<String>,
    contents: Seq<ContentEntry>,
    common_prefixes: Seq<String>,
) -> Seq<char> {
    xml_declaration() + root_tag("ListBucketResult"@) + text_element("Name"@, bucket_name)
        + optional_element("Prefix"@, prefix) + optional_element("Marker"@, marker) + text_element(
        "MaxKeys"@,
        decimal(max_keys),
    ) + text_element("IsTruncated"@, bool_text(is_truncated)) + optional_element(
        "NextMarker"@,
        next_marker,
    ) + content_elements(contents) + prefix_elements(common_prefixes) + end_tag(
        "ListBucketResult"@,
    )
}

fn write_optional(w: &mut XmlDoc, name: &str, text: &Option<String>)
    ensures
        final(w)@ == old(w)@ + optional_element(name@, *text),
{
    match text {
        Some(t) => {
            w.element(name, t.as_str());
        },
        None => {
            assert(w@ + Seq::<char>::empty() =~= w@);
        },
    }
}

/// ListObjects XML response.
pub fn list_objects_xml(params: &ListXmlParams<'_>) -> (r: String)
    ensures
        r@ == list_document(
            params.bucket_name@,
            *params.prefix,
            *params.marker,
            params.max_keys as nat,
            params.is_truncated,
            *params.next_marker,
            params.contents@,
            params.common_prefixes@,
        ),
{
    let mut w = XmlDoc::new();
    w.event(XmlEvent::StartWith("ListBucketResult", "xmlns", S3_NS));
    w.element("Name", params.bucket_name);
    write_optional(&mut w, "Prefix", params.prefix);
    write_optional(&mut w, "Marker", params.marker);
    w.element("MaxKeys", decimal_string(params.max_keys as u128).as_str());
    w.element(
        "IsTruncated",
        if params.is_truncated {
            "true"
        } else {
            "false"
        },
    );
    write_optional(&mut w, "NextMarker", params.next_marker);
    let ghost head = w@;
    let contents: &[ContentEntry] = params.contents;
    let mut i: usize = 0;
    assert(contents@.take(0) =~= Seq::empty());
    assert(head + content_elements(contents@.take(0)) =~= head);
    while i < contents.len()
        invariant
            i <= contents@.len(),
            w@ == head + content_elements(contents@.take(i as int)),
        decreases contents.len() - i,
    {
        let ghost before = w@;
        let entry: &ContentEntry = &contents[i];
        w.start("Contents");
        w.element("Key", entry.key.as_str());
        w.element("LastModified", entry.last_modified.as_str());
        w.element("ETag", entry.etag.as_str());
        w.element("Size", decimal_string(entry.size as u128).as_str());
        w.element("StorageClass", "STANDARD");
        w.end("Contents");
        proof {
            assert(contents@.take(i + 1).drop_last() =~= contents@.take(i as int));
            assert(w@ =~= before + content_element(contents@[i as int]));
            assert(w@ =~= head + content_elements(contents@.take(i + 1)));
        }
        i += 1;
    }
    assert(contents@.take(contents@.len() as int) =~= contents@);
    let ghost middle = w@;
    let prefixes: &[String] = params.common_prefixes;
    let mut i: usize = 0;
    assert(prefixes@.take(0) =~= Seq::empty());
    assert(middle + prefix_elements(prefixes@.take(0)) =~= middle);
    while i < prefixes.len()
        invariant
            i <= prefixes@.len(),
            w@ == middle + prefix_elements(prefixes@.take(i as int)),
        decreases prefixes.len() - i,
    {
        let ghost before = w@;
        w.start("CommonPrefixes");
        w.element("Prefix", prefixes[i].as_str());
        w.end("CommonPrefixes");
        proof {
            assert(prefixes@.take(i + 1).drop_last() =~= prefixes@.take(i as int));
            assert(w@ =~= before + prefix_element(prefixes@[i as int]));
            assert(w@ =~= middle + prefix_elements(prefixes@.take(i + 1)));
        }
        i += 1;
    }
    assert(prefixes@.take(prefixes@.len() as int) =~= prefixes@);
    w.end("ListBucketResult");
    w.finish()
}

/// A reply: its status, its headers and, where it is a document, its body.
pub struct Reply {
    pub status: u16,
    pub headers: Vec<(String, String)>,
    pub body: String,
}

/// The texts of headers.
pub open spec fn header_texts(headers: Seq<(String, String)>) -> Seq<(Seq<char>, Seq<char>)> {
    Seq::new(headers.len(), |i: int| (headers[i].0@, headers[i].1@))
}

/// Whether `r` is the reply with a status and a document.
pub open spec fn is_document(r: Reply, status: u16, body: Seq<char>) -> bool {
    &&& r.status == status
    &&& header_texts(r.headers@) == seq![("content-type"@, "application/xml"@)]
    &&& r.body@ == body
}

/// Whether `r` is the reply with a status alone.
pub open spec fn is_bare(r: Reply, status: u16) -> bool {
    r.status == status && r.headers@.len() == 0 && r.body@.len() == 0
}

/// Whether `r` is the reply to a storage error.
pub open spec fn is_error(r: Reply, err: StorageError) -> bool {
    let (status, code, message) = error_reply_of(err);
    is_document(r, status, error_document(code, message))
}

fn push_header(headers: &mut Vec<(String, String)>, name: &str, value: String)
    ensures
        header_texts(final(headers)@) == header_texts(old(headers)@).push((name@, value@)),
{
    headers.push((owned(name), value));
    assert(header_texts(headers@) =~= header_texts(old(headers)@).push((name@, value@)));
}

pub(crate) fn document(status: u16, body: String) -> (r: Reply)
    ensures
        is_document(r, status, body@),
{
    let mut headers: Vec<(String, String)> = Vec::new();
    push_header(&mut headers, "content-type", owned("application/xml"));
    assert(header_texts(headers@) =~= seq![("content-type"@, "application/xml"@)]);
    Reply { status, headers, body }
}

fn bare(status: u16) -> (r: Reply)
    ensures
        is_bare(r, status),
{
    Reply { status, headers: Vec::new(), body: String::new() }
}

/// Convert a `StorageError` into an S3-compatible XML reply.
pub fn error_to_response(err: &StorageError) -> (r: Reply)
    ensures
        is_error(r, *err),
{
    let e = storage_error_to_response(err);
    document(e.status, s3_error_xml(e.code.as_str(), e.message.as_str()))
}

/// The reply to the creation of a bucket.
pub fn create_bucket(result: &StorageResult<()>) -> (r: Reply)
    ensures
        match result {
            Ok(_) => is_bare(r, 201),
            Err(e) => is_error(r, *e),
        },
{
    match result {
        Ok(_) => bare(201),
        Err(e) => error_to_response(e),
    }
}

/// The reply to a listing of the buckets.
pub fn list_buckets(result: &StorageResult<Vec<BucketMeta>>) -> (r: Reply)
    ensures
        match result {
            Ok(buckets) => is_document(r, 200, buckets_document(buckets@)),
            Err(e) => is_error(r, *e),
        },
{
    match result {
        Ok(buckets) => document(200, list_buckets_xml(buckets.as_slice())),
        Err(e) => error_to_response(e),
    }
}

/// The reply to the deletion of a bucket.
pub fn delete_bucket(bucket: &str, result: &StorageResult<()>) -> (r: Reply)
    ensures
        match result {
            Ok(_) => is_bare(r, 204),
            Err(e) => if e is NotFound {
                is_document(
                    r,
                    404,
                    error_document(
                        "NoSuchBucket"@,
                        "The specified bucket does not exist: "@ + bucket@,
                    ),
                )
            } else {
                is_error(r, *e)
            },
        },
{
    match result {
        Ok(_) => bare(204),
        Err(StorageError::NotFound(_)) => document(
            404,
            s3_error_xml(
                "NoSuchBucket",
                join2("The specified bucket does not exist: ", bucket).as_str(),
            ),
        ),
        Err(e) => error_to_response(e),
    }
}

/// The reply to the deletion of an object.
pub fn delete_object(result: &StorageResult<()>) -> (r: Reply)
    ensures
        match result {
            Ok(_) => is_bare(r, 204),
            Err(e) => is_error(r, *e),
        },
{
    match result {
        Ok(_) => bare(204),
        Err(e) => error_to_response(e),
    }
}

/// `text` between quotation marks.
pub open spec fn quoted(text: Seq<char>) -> Seq<char> {
    "\""@ + text + "\""@
}

/// The entity tag of a stored version: its checksum.
pub fn etag(checksum: u128) -> (r: String)
    ensures
        r@ == quoted(hex(checksum as nat)),
{
    join3("\"", hex_string(checksum).as_str(), "\"")
}

/// The two hexadecimal digits of each byte.
pub open spec fn byte_digits(bytes: Seq<u8>) -> Seq<char>
    decreases bytes.len(),
{
    if bytes.len() == 0 {
        Seq::empty()
    } else {
        byte_digits(bytes.drop_last()) + seq![
            hex_char(bytes.last() as nat / 16),
            hex_char(bytes.last() as nat % 16),
        ]
    }
}

fn hex_digit(d: u8) -> (c: char)
    requires
        d < 16,
    ensures
        c == hex_char(d as nat),
{
    if d < 10 {
        (48u8 + d) as char
    } else {
        (87u8 + d) as char
    }
}

/// The text of bytes in lowercase hexadecimal digits, two for each byte.
pub fn hex_bytes(bytes: &[u8]) -> (r: String)
    ensures
        r@ == byte_digits(bytes@),
{
    let mut r: String = String::new();
    let mut i: usize = 0;
    assert(bytes@.take(0) =~= Seq::empty());
    while i < bytes.len()
        invariant
            i <= bytes@.len(),
            r@ == byte_digits(bytes@.take(i as int)),
        decreases bytes.len() - i,
    {
        let ghost before = r@;
        r.push(hex_digit(bytes[i] / 16));
        r.push(hex_digit(bytes[i] % 16));
        proof {
            assert(bytes@.take(i + 1).drop_last() =~= bytes@.take(i as int));
            assert(r@ =~= byte_digits(bytes@.take(i + 1)));
        }
        i += 1;
    }
    assert(bytes@.take(bytes@.len() as int) =~= bytes@);
    r
}

/// The MD5 digest of `data`.
pub uninterp spec fn md5_digest(data: Seq<u8>) -> Seq<u8>;

/// `md5::Md5::digest`: a digest of sixteen bytes that depends on the data alone. Nothing else is
/// claimed of the digest.
#[verifier::external_body]
fn md5_of(data: &[u8]) -> (r: Vec<u8>)
    ensures
        r@ == md5_digest(data@),
        r@.len() == 16,
{
    md5::Md5::digest(data).to_vec()
}

/// The headers of the reply to a stored object.
pub open spec fn put_headers(version: u64, digest: Seq<u8>, size: nat) -> Seq<
    (Seq<char>, Seq<char>),
> {
    seq![
        ("x-amz-version-id"@, decimal(version as nat)),
        ("etag"@, quoted(byte_digits(digest))),
        ("content-length"@, decimal(size)),
    ]
}

/// The reply to an object that was stored as `version`, from the MD5 digest of its data. The data
/// itself is the body that goes with it.
pub fn put_object_with_digest(version: u64, digest: &[u8], size: usize) -> (r: Reply)
    ensures
        r.status == 200,
        header_texts(r.headers@) == put_headers(version, digest@, size as nat),
        r.body@.len() == 0,
{
    let mut headers: Vec<(String, String)> = Vec::new();
    push_header(&mut headers, "x-amz-version-id", decimal_string(version as u128));
    push_header(&mut headers, "etag", join3("\"", hex_bytes(digest).as_str(), "\""));
    push_header(&mut headers, "content-length", decimal_string(size as u128));
    assert(header_texts(headers@) =~= put_headers(version, digest@, size as nat));
    Reply { status: 200, headers, body: String::new() }
}

/// The reply to storing `data` as an object. The data itself is the body that goes with it.
pub fn put_object(data: &[u8], result: &StorageResult<u64>) -> (r: Reply)
    ensures
        match result {
            Ok(version) => {
                &&& r.status == 200
                &&& header_texts(r.headers@) == put_headers(
                    *version,
                    md5_digest(data@),
                    data@.len(),
                )
                &&& r.body@.len() == 0
            },
            Err(e) => is_error(r, *e),
        },
{
    match result {
        Ok(version) => {
            let digest = md5_of(data);
            put_object_with_digest(*version, digest.as_slice(), data.len())
        },
        Err(e) => error_to_response(e),
    }
}

/// The form of a date in a header.
pub const HTTP_DATE: &'static str = "%a, %d %b %Y %H:%M:%S GMT";

/// An RFC 3339 time in the form that `pattern` gives, if it is such a time.
pub uninterp spec fn reformatted_time(time: Seq<char>, pattern: Seq<char>) -> Option<Seq<char>>;

/// `chrono::DateTime::parse_from_rfc3339` and then `chrono::DateTime::format`: whether the text is
/// a time, and its new form, depend on the two texts alone. A pattern with an unknown specifier
/// could not be formatted, so the pattern is the one for headers.
#[verifier::external_body]
fn reformat_time(time: &str, pattern: &str) -> (r: Option<String>)
    requires
        pattern@ == HTTP_DATE@,
    ensures
        r is Some == (reformatted_time(time@, pattern@) is Some),
        r matches Some(text) ==> Some(text@) == reformatted_time(time@, pattern@),
{
    let time = chrono::DateTime::parse_from_rfc3339(time).ok()?;
    Some(time.format(pattern).to_string())
}

/// The date of a version for a header, if its time is well formed.
pub fn http_date(time: &str) -> (r: Option<String>)
    ensures
        r is Some <==> reformatted_time(time@, HTTP_DATE@) is Some,
        r matches Some(text) ==> Some(text@) == reformatted_time(time@, HTTP_DATE@),
{
    reformat_time(time, HTTP_DATE)
}

/// The header with the date, if there is one.
pub open spec fn date_header(date: Option<Seq<char>>) -> Seq<(Seq<char>, Seq<char>)> {
    match date {
        Some(text) => seq![("last-modified"@, text)],
        None => Seq::empty(),
    }
}

/// What a text that may be missing holds.
pub open spec fn optional_text(text: Option<String>) -> Option<Seq<char>> {
    match text {
        Some(t) => Some(t@),
        None => None,
    }
}

fn push_date(headers: &mut Vec<(String, String)>, date: Option<String>)
    ensures
        header_texts(final(headers)@) == header_texts(old(headers)@) + date_header(
            optional_text(date),
        ),
{
    match date {
        Some(text) => {
            push_header(headers, "last-modified", text);
        },
        None => {},
    }
    assert(header_texts(headers@) =~= header_texts(old(headers)@) + date_header(
        optional_text(date),
    ));
}

/// The number of bytes of a range with both ends, if it is a number.
pub open spec fn range_len(start: u64, end: u64) -> Option<u64> {
    if start <= end && end - start < u64::MAX {
        Some((end - start + 1) as u64)
    } else {
        None
    }
}

/// The text of a byte range of an object.
pub open spec fn content_range(start: u64, end: u64, size: nat) -> Seq<char> {
    "bytes "@ + decimal(start as nat) + "-"@ + decimal(end as nat) + "/"@ + decimal(size)
}

/// The headers of the reply with an object.
pub open spec fn get_headers(meta: VersionMeta, date: Option<Seq<char>>) -> Seq<
    (Seq<char>, Seq<char>),
> {
    seq![
        ("content-length"@, decimal(meta.data_size as nat)),
        ("etag"@, quoted(hex(meta.checksum as nat))),
        ("accept-ranges"@, "bytes"@),
    ] + date_header(date)
}

/// The headers of the reply with a byte range of an object.
pub open spec fn range_headers(
    meta: VersionMeta,
    start: u64,
    end: u64,
    date: Option<Seq<char>>,
) -> Seq<(Seq<char>, Seq<char>)> {
    seq![
        ("content-length"@, decimal(range_len(start, end).unwrap() as nat)),
        ("content-range"@, content_range(start, end, meta.data_size as nat)),
        ("accept-ranges"@, "bytes"@),
        ("etag"@, quoted(hex(meta.checksum as nat))),
    ] + date_header(date)
}

/// The headers of the reply about an object.
pub open spec fn head_headers(meta: VersionMeta, date: Option<Seq<char>>) -> Seq<
    (Seq<char>, Seq<char>),
> {
    seq![
        ("content-length"@, decimal(meta.data_size as nat)),
        ("etag"@, quoted(hex(meta.checksum as nat))),
    ] + date_header(date)
}

/// Whether `r` is the reply with an object, or with a byte range of it: its data goes with it as
/// the body.
pub open spec fn is_object_reply(
    r: Reply,
    meta: VersionMeta,
    range: Option<(u64, u64)>,
    date: Option<Seq<char>>,
) -> bool {
    match range {
        Some((start, end)) => if range_len(start, end) is Some {
            &&& r.status == 206
            &&& header_texts(r.headers@) == range_headers(meta, start, end, date)
            &&& r.body@.len() == 0
        } else {
            // No number of bytes: an invalid range.
            is_document(
                r,
                500,
                error_document("InternalError"@, "An internal error occurred"@),
            )
        },
        None => {
            &&& r.status == 200
            &&& header_texts(r.headers@) == get_headers(meta, date)
            &&& r.body@.len() == 0
        },
    }
}

/// The reply with an object or a byte range of it, from the date of the version.
pub fn get_object_with_date(
    meta: &VersionMeta,
    range: Option<(u64, u64)>,
    date: Option<String>,
) -> (r: Reply)
    ensures
        is_object_reply(r, *meta, range, optional_text(date)),
{
    let ghost date_text = optional_text(date);
    let tag = etag(meta.checksum);
    let mut headers: Vec<(String, String)> = Vec::new();
    match range {
        Some((start, end)) => {
            if end < start || end - start == u64::MAX {
                let mut m = join3("range end ", decimal_string(end as u128).as_str(), " < start ");
                m.append(decimal_string(start as u128).as_str());
                return error_to_response(&StorageError::InvalidRange(m));
            }
            let len: u64 = end - start + 1;
            let mut text = join3("bytes ", decimal_string(start as u128).as_str(), "-");
            text.append(decimal_string(end as u128).as_str());
            text.append("/");
            text.append(decimal_string(meta.data_size as u128).as_str());
            push_header(&mut headers, "content-length", decimal_string(len as u128));
            push_header(&mut headers, "content-range", text);
            push_header(&mut headers, "accept-ranges", owned("bytes"));
            push_header(&mut headers, "etag", tag);
            push_date(&mut headers, date);
            assert(header_texts(headers@) =~= range_headers(*meta, start, end, date_text));
            Reply { status: 206, headers, body: String::new() }
        },
        None => {
            push_header(&mut headers, "content-length", decimal_string(meta.data_size as u128));
            push_header(&mut headers, "etag", tag);
            push_header(&mut headers, "accept-ranges", owned("bytes"));
            push_date(&mut headers, date);
            assert(header_texts(headers@) =~= get_headers(*meta, date_text));
            Reply { status: 200, headers, body: String::new() }
        },
    }
}

/// The reply with an object or a byte range of it.
pub fn get_object(result: &StorageResult<VersionMeta>, range: Option<(u64, u64)>) -> (r: Reply)
    ensures
        match result {
            Ok(meta) => is_object_reply(
                r,
                *meta,
                range,
                reformatted_time(meta.last_modified@, HTTP_DATE@),
            ),
            Err(e) => is_error(r, *e),
        },
{
    match result {
        Ok(meta) => {
            let date = http_date(meta.last_modified.as_str());
            get_object_with_date(meta, range, date)
        },
        Err(e) => error_to_response(e),
    }
}

/// The reply about an object, from the date of the version.
pub fn head_object_with_date(meta: &VersionMeta, date: Option<String>) -> (r: Reply)
    ensures
        r.status == 200,
        header_texts(r.headers@) == head_headers(*meta, optional_text(date)),
        r.body@.len() == 0,
{
    let ghost date_text = optional_text(date);
    let mut headers: Vec<(String, String)> = Vec::new();
    push_header(&mut headers, "content-length", decimal_string(meta.data_size as u128));
    push_header(&mut headers, "etag", etag(meta.checksum));
    push_date(&mut headers, date);
    assert(header_texts(headers@) =~= head_headers(*meta, date_text));
    Reply { status: 200, headers, body: String::new() }
}

/// The reply about an object.
pub fn head_object(result: &StorageResult<VersionMeta>) -> (r: Reply)
    ensures
        match result {
            Ok(meta) => {
                &&& r.status == 200
                &&& header_texts(r.headers@) == head_headers(
                    *meta,
                    reformatted_time(meta.last_modified@, HTTP_DATE@),
                )
                &&& r.body@.len() == 0
            },
            Err(e) => is_error(r, *e),
        },
{
    match result {
        Ok(meta) => head_object_with_date(meta, http_date(meta.last_modified.as_str())),
        Err(e) => error_to_response(e),
    }
}

/// Errors are answered by whose fault they are: a missing object or bucket with 404, a conflict
/// with what is there with 409, and all else with a status of the server.
pub proof fn law_errors_are_answered_by_their_cause(err: StorageError)
    ensures
        error_reply_of(err).0 == 404 <==> err is NotFound || err is BucketNotFound,
        error_reply_of(err).0 == 409 <==> err is BucketAlreadyExists || err is VersionConflict || (
        err matches StorageError::Transient(m) && occurs(m@, "not empty"@)),
        error_reply_of(err).0 == 503 <==> err is NoHealthyDisks,
        error_reply_of(err).0 == 404 || error_reply_of(err).0 == 409 || 500 <= error_reply_of(
            err,
        ).0 <= 503,
{
}

/// Deleting a bucket that holds objects is answered with a conflict, whatever its name is.
pub proof fn law_deleting_a_full_bucket_is_a_conflict(err: StorageError, name: Seq<char>)
    requires
        err matches StorageError::Transient(m) && m@ == "bucket '"@ + name
            + "' is not empty, cannot delete"@,
    ensures
        error_reply_of(err).0 == 409,
        error_reply_of(err).1 == "BucketNotEmpty"@,
{
    reveal_strlit("' is not empty, cannot delete");
    reveal_strlit("not empty");
    let tail = "' is not empty, cannot delete"@;
    assert(tail.subrange(5, 14) =~= "not empty"@);
    assert(occurs_at(tail, "not empty"@, 5));
    let head = "bucket '"@ + name;
    lemma_occurs_within(head, tail, Seq::empty(), "not empty"@);
    assert(head + tail + Seq::<char>::empty() =~= head + tail);
}

/// The reply with a byte range says how many bytes it holds: as many as the range of the object
/// has.
pub proof fn law_range_reply_holds_as_many_bytes_as_it_says(data: Seq<u8>, start: u64, end: u64)
    requires
        start <= end < data.len() <= u64::MAX,
    ensures
        range_len(start, end) matches Some(n) && n == data.subrange(start as int, end + 1).len(),
{
}

/// Whether a reply has a header with the number `n`.
pub open spec fn tells_number(headers: Seq<(Seq<char>, Seq<char>)>, name: Seq<char>, n: u64) -> bool {
    exists|i: int|
        0 <= i < headers.len() && (#[trigger] headers[i]).0 == name && parsed(headers[i].1, 10)
            == Some(n)
}

/// The replies with an object, about an object and with a part of one tell its size or that of the
/// part, and the reply to a stored object its size and its version.
pub proof fn law_replies_tell_sizes_and_versions(
    meta: VersionMeta,
    date: Option<Seq<char>>,
    start: u64,
    end: u64,
    version: u64,
    digest: Seq<u8>,
    size: usize,
)
    requires
        start <= end,
        end - start < u64::MAX,
    ensures
        tells_number(get_headers(meta, date), "content-length"@, meta.data_size as u64),
        tells_number(head_headers(meta, date), "content-length"@, meta.data_size as u64),
        tells_number(
            range_headers(meta, start, end, date),
            "content-length"@,
            (end - start + 1) as u64,
        ),
        tells_number(put_headers(version, digest, size as nat), "content-length"@, size as u64),
        tells_number(put_headers(version, digest, size as nat), "x-amz-version-id"@, version),
{
    law_decimal_is_read_back(meta.data_size as u64);
    law_decimal_is_read_back((end - start + 1) as u64);
    law_decimal_is_read_back(size as u64);
    law_decimal_is_read_back(version);
    assert(get_headers(meta, date)[0] == ("content-length"@, decimal(meta.data_size as nat)));
    assert(head_headers(meta, date)[0] == ("content-length"@, decimal(meta.data_size as nat)));
    assert(range_headers(meta, start, end, date)[0] == (
        "content-length"@,
        decimal((end - start + 1) as nat),
    ));
    assert(put_headers(version, digest, size as nat)[0] == (
        "x-amz-version-id"@,
        decimal(version as nat),
    ));
    assert(put_headers(version, digest, size as nat)[2] == ("content-length"@, decimal(size as nat)));
}

/// The replies with an object and about it carry the same entity tag, and objects with different
/// checksums have different ones.
pub proof fn law_entity_tags_tell_objects_apart(
    a: VersionMeta,
    b: VersionMeta,
    date: Option<Seq<char>>,
)
    ensures
        get_headers(a, date)[1].0 == "etag"@,
        head_headers(a, date)[1] == get_headers(a, date)[1],
        get_headers(a, date)[1] == get_headers(b, date)[1] <==> a.checksum == b.checksum,
{
    law_hex_is_read_back(a.checksum as nat);
    law_hex_is_read_back(b.checksum as nat);
    let x = hex(a.checksum as nat);
    let y = hex(b.checksum as nat);
    if quoted(x) == quoted(y) {
        reveal_strlit("\"");
        let mark = "\""@;
        assert(mark.len() == 1);
        assert(quoted(x).len() == x.len() + 2);
        assert(quoted(y).len() == y.len() + 2);
        assert(x =~= quoted(x).subrange(1, 1int + x.len()));
        assert(y =~= quoted(y).subrange(1, 1int + y.len()));
    }
}

/// Each byte of a digest is written as two hexadecimal digits, in order.
pub proof fn law_digest_is_read_back(bytes: Seq<u8>, i: int)
    requires
        0 <= i < bytes.len(),
    ensures
        byte_digits(bytes).len() == 2 * bytes.len(),
        digit_value(byte_digits(bytes)[2 * i], 16) == Some(bytes[i] as nat / 16),
        digit_value(byte_digits(bytes)[2 * i + 1], 16) == Some(bytes[i] as nat % 16),
    decreases bytes.len(),
{
    assert forall|d: nat| d < 16 implies digit_value(#[trigger] hex_char(d), 16) == Some(d) by {}
    let rest = bytes.drop_last();
    lemma_byte_digits_len(rest);
    if i < rest.len() {
        law_digest_is_read_back(rest, i);
        assert(rest[i] == bytes[i]);
    }
}

proof fn lemma_byte_digits_len(bytes: Seq<u8>)
    ensures
        byte_digits(bytes).len() == 2 * bytes.len(),
    decreases bytes.len(),
{
    if bytes.len() > 0 {
        lemma_byte_digits_len(bytes.drop_last());
    }
}

proof fn lemma_content_is_shown(contents: Seq<ContentEntry>, a: int)
    requires
        0 <= a < contents.len(),
    ensures
        occurs(content_elements(contents), content_element(contents[a])),
    decreases contents.len(),
{
    let rest = contents.drop_last();
    let here = content_element(contents.last());
    let none = Seq::<char>::empty();
    if a < rest.len() {
        lemma_content_is_shown(rest, a);
        assert(rest[a] == contents[a]);
        lemma_occurs_within(none, content_elements(rest), here, content_element(contents[a]));
        assert(none + content_elements(rest) + here =~= content_elements(contents));
    } else {
        lemma_occurs_in_itself(here);
        lemma_occurs_within(content_elements(rest), here, none, here);
        assert(content_elements(rest) + here + none =~= content_elements(contents));
    }
}

proof fn lemma_prefix_is_shown(prefixes: Seq<String>, a: int)
    requires
        0 <= a < prefixes.len(),
    ensures
        occurs(prefix_elements(prefixes), prefix_element(prefixes[a])),
    decreases prefixes.len(),
{
    let rest = prefixes.drop_last();
    let here = prefix_element(prefixes.last());
    let none = Seq::<char>::empty();
    if a < rest.len() {
        lemma_prefix_is_shown(rest, a);
        assert(rest[a] == prefixes[a]);
        lemma_occurs_within(none, prefix_elements(rest), here, prefix_element(prefixes[a]));
        assert(none + prefix_elements(rest) + here =~= prefix_elements(prefixes));
    } else {
        lemma_occurs_in_itself(here);
        lemma_occurs_within(prefix_elements(rest), here, none, here);
        assert(prefix_elements(rest) + here + none =~= prefix_elements(prefixes));
    }
}

proof fn lemma_occurs_in_itself(s: Seq<char>)
    ensures
        occurs(s, s),
{
    assert(s.subrange(0, s.len() as int) =~= s);
    assert(occurs_at(s, s, 0));
}

proof fn lemma_occurs_transitive(s: Seq<char>, t: Seq<char>, p: Seq<char>)
    requires
        occurs(s, t),
        occurs(t, p),
    ensures
        occurs(s, p),
{
    let i = choose|i: int| occurs_at(s, t, i);
    let j = choose|j: int| occurs_at(t, p, j);
    assert(s.subrange(i + j, i + j + p.len()) =~= t.subrange(j, j + p.len())) by {
        assert(t == s.subrange(i, i + t.len()));
    }
    assert(occurs_at(s, p, i + j));
}

/// The document of a listing shows every object with its key, its entity tag and its size, and
/// every common prefix, and says whether there is more.
#[verifier::spinoff_prover]
pub proof fn law_document_shows_the_whole_page(
    bucket_name: Seq<char>,
    prefix: Option<String>,
    marker: Option<String>,
    max_keys: nat,
    is_truncated: bool,
    next_marker: Option<String>,
    contents: Seq<ContentEntry>,
    common_prefixes: Seq<String>,
    a: int,
)
    ensures
        ({
            let document = list_document(
                bucket_name,
                prefix,
                marker,
                max_keys,
                is_truncated,
                next_marker,
                contents,
                common_prefixes,
            );
            &&& 0 <= a < contents.len() ==> occurs(
                document,
                text_element("Key"@, contents[a].key@),
            ) && occurs(document, text_element("ETag"@, contents[a].etag@)) && occurs(
                document,
                text_element("Size"@, decimal(contents[a].size as nat)),
            )
            &&& 0 <= a < common_prefixes.len() ==> occurs(
                document,
                text_element("Prefix"@, common_prefixes[a]@),
            )
            &&& occurs(
                document,
                text_element(
                    "IsTruncated"@,
                    if is_truncated {
                        "true"@
                    } else {
                        "false"@
                    },
                ),
            )
            &&& next_marker matches Some(m) ==> occurs(
                document,
                text_element("NextMarker"@, m@),
            )
        }),
{
    let document = list_document(
        bucket_name,
        prefix,
        marker,
        max_keys,
        is_truncated,
        next_marker,
        contents,
        common_prefixes,
    );
    let start = xml_declaration() + root_tag("ListBucketResult"@) + text_element(
        "Name"@,
        bucket_name,
    ) + optional_element("Prefix"@, prefix) + optional_element("Marker"@, marker) + text_element(
        "MaxKeys"@,
        decimal(max_keys),
    );
    let truncated = text_element("IsTruncated"@, bool_text(is_truncated));
    let next = optional_element("NextMarker"@, next_marker);
    let shown = content_elements(contents);
    let prefixes = prefix_elements(common_prefixes);
    let end = end_tag("ListBucketResult"@);
    assert(document == start + truncated + next + shown + prefixes + end);
    lemma_occurs_in_itself(truncated);
    lemma_occurs_in_part(start, truncated, next, shown, prefixes, end, truncated);
    if next_marker is Some {
        lemma_occurs_in_itself(next);
        lemma_occurs_in_part(start, truncated, next, shown, prefixes, end, next);
    }
    if 0 <= a < contents.len() {
        let e = contents[a];
        let element = content_element(e);
        lemma_content_is_shown(contents, a);
        lemma_occurs_in_part(start, truncated, next, shown, prefixes, end, element);
        lemma_content_element(e);
        lemma_occurs_transitive(document, element, text_element("Key"@, e.key@));
        lemma_occurs_transitive(document, element, text_element("ETag"@, e.etag@));
        lemma_occurs_transitive(
            document,
            element,
            text_element("Size"@, decimal(e.size as nat)),
        );
    }
    if 0 <= a < common_prefixes.len() {
        let p = common_prefixes[a];
        let element = prefix_element(p);
        let text = text_element("Prefix"@, p@);
        lemma_prefix_is_shown(common_prefixes, a);
        lemma_occurs_in_part(start, truncated, next, shown, prefixes, end, element);
        lemma_occurs_in_itself(text);
        lemma_occurs_within(
            start_tag("CommonPrefixes"@),
            text,
            end_tag("CommonPrefixes"@),
            text,
        );
        lemma_occurs_transitive(document, element, text);
    }
}

proof fn lemma_occurs_in_part(
    a: Seq<char>,
    b: Seq<char>,
    c: Seq<char>,
    d: Seq<char>,
    e: Seq<char>,
    f: Seq<char>,
    p: Seq<char>,
)
    requires
        occurs(b, p) || occurs(c, p) || occurs(d, p) || occurs(e, p),
    ensures
        occurs(a + b + c + d + e + f, p),
{
    let whole = a + b + c + d + e + f;
    if occurs(b, p) {
        lemma_occurs_within(a, b, c + d + e + f, p);
        assert(a + b + (c + d + e + f) =~= whole);
    } else if occurs(c, p) {
        lemma_occurs_within(a + b, c, d + e + f, p);
        assert(a + b + c + (d + e + f) =~= whole);
    } else if occurs(d, p) {
        lemma_occurs_within(a + b + c, d, e + f, p);
        assert(a + b + c + d + (e + f) =~= whole);
    } else {
        lemma_occurs_within(a + b + c + d, e, f, p);
    }
}

proof fn lemma_content_element(e: ContentEntry)
    ensures
        occurs(content_element(e), text_element("Key"@, e.key@)),
        occurs(content_element(e), text_element("ETag"@, e.etag@)),
        occurs(content_element(e), text_element("Size"@, decimal(e.size as nat))),
{
    let whole = content_element(e);
    let start = start_tag("Contents"@);
    let key = text_element("Key"@, e.key@);
    let time = text_element("LastModified"@, e.last_modified@);
    let tag = text_element("ETag"@, e.etag@);
    let size = text_element("Size"@, decimal(e.size as nat));
    let rest = text_element("StorageClass"@, "STANDARD"@) + end_tag("Contents"@);
    lemma_occurs_in_itself(key);
    lemma_occurs_in_itself(tag);
    lemma_occurs_in_itself(size);
    lemma_occurs_within(start, key, time + tag + size + rest, key);
    assert(start + key + (time + tag + size + rest) =~= whole);
    lemma_occurs_within(start + key + time, tag, size + rest, tag);
    assert(start + key + time + tag + (size + rest) =~= whole);
    lemma_occurs_within(start + key + time + tag, size, rest, size);
    assert(start + key + time + tag + size + rest =~= whole);
}

/// The document of a listing of buckets shows every bucket with its name and the time of its
/// creation.
pub proof fn law_document_shows_every_bucket(buckets: Seq<BucketMeta>, a: int)
    requires
        0 <= a < buckets.len(),
    ensures
        occurs(buckets_document(buckets), text_element("Name"@, buckets[a].name@)),
        occurs(buckets_document(buckets), text_element("CreationDate"@, buckets[a].created_at@)),
{
    let document = buckets_document(buckets);
    let b = buckets[a];
    let element = bucket_element(b);
    let name = text_element("Name"@, b.name@);
    let time = text_element("CreationDate"@, b.created_at@);
    let shown = bucket_elements(buckets);
    let start = xml_declaration() + root_tag("ListAllMyBucketsResult"@) + start_tag("Owner"@)
        + text_element("ID"@, "self"@) + end_tag("Owner"@) + start_tag("Buckets"@);
    let end = end_tag("Buckets"@) + end_tag("ListAllMyBucketsResult"@);
    lemma_bucket_is_shown(buckets, a);
    lemma_occurs_within(start, shown, end, element);
    assert(start + shown + end =~= document);
    lemma_occurs_in_itself(name);
    lemma_occurs_in_itself(time);
    lemma_occurs_within(start_tag("Bucket"@), name, time + end_tag("Bucket"@), name);
    assert(start_tag("Bucket"@) + name + (time + end_tag("Bucket"@)) =~= element);
    lemma_occurs_within(start_tag("Bucket"@) + name, time, end_tag("Bucket"@), time);
    lemma_occurs_transitive(document, element, name);
    lemma_occurs_transitive(document, element, time);
}

proof fn lemma_bucket_is_shown(buckets: Seq<BucketMeta>, a: int)
    requires
        0 <= a < buckets.len(),
    ensures
        occurs(bucket_elements(buckets), bucket_element(buckets[a])),
    decreases buckets.len(),
{
    let rest = buckets.drop_last();
    let here = bucket_element(buckets.last());
    let none = Seq::<char>::empty();
    if a < rest.len() {
        lemma_bucket_is_shown(rest, a);
        assert(rest[a] == buckets[a]);
        lemma_occurs_within(none, bucket_elements(rest), here, bucket_element(buckets[a]));
        assert(none + bucket_elements(rest) + here =~= bucket_elements(buckets));
    } else {
        lemma_occurs_in_itself(here);
        lemma_occurs_within(bucket_elements(rest), here, none, here);
        assert(bucket_elements(rest) + here + none =~= bucket_elements(buckets));
    }
}

/// Bucket names that are allowed cannot be taken for a part of a key: no name holds a slash or a
/// colon, and no name is empty. A slash behind a name counts as nothing.
pub proof fn law_bucket_names_are_plain(name: Seq<char>)
    requires
        is_bucket_name(name),
    ensures
        name.len() > 0,
        forall|i: int| 0 <= i < name.len() ==> (#[trigger] name[i]) != '/' && name[i] != ':',
        clean_bucket_of(name) == name,
        clean_bucket_of(name + seq!['/']) == name,
{
    assert forall|i: int| 0 <= i < name.len() implies (#[trigger] name[i]) != '/' && name[i]
        != ':' by {
        if name[i] == '/' {
            assert(name.contains('/'));
        }
        if name[i] == ':' {
            assert(name.contains(':'));
        }
    }
    assert(name.last() == name[name.len() - 1]);
    assert((name + seq!['/']).drop_last() =~= name);
}

/// A Range header is read as a range only if it is one: two numbers with a hyphen between them,
/// behind the unit. One without a start or without an end is refused.
pub proof fn law_range_header_holds_two_numbers(header: Seq<char>, start: u64, end: u64)
    requires
        range_of(header) == Ok::<(u64, u64), Seq<char>>((start, end)),
    ensures
        exists|first: Seq<char>, last: Seq<char>|
            header == #[trigger] ("bytes="@ + first + "-"@ + last) && parsed(first, 10) == Some(
                start,
            ) && parsed(last, 10) == Some(end) && !first.contains('-'),
{
    reveal_strlit("-");
    let unit = "bytes="@;
    let body = header.skip(unit.len() as int);
    let i = first_char(body, '-');
    lemma_first_char(body, '-');
    let first = body.take(i);
    let last = body.skip(i + 1);
    assert(header =~= unit + first + "-"@ + last) by {
        assert(header =~= unit + body);
        assert(body =~= first + seq!['-'] + last);
    }
}

/// The document of an error tells its code and its message.
pub proof fn law_error_document_tells_code_and_message(code: Seq<char>, message: Seq<char>)
    ensures
        occurs(error_document(code, message), text_element("Code"@, code)),
        occurs(error_document(code, message), text_element("Message"@, message)),
{
    let start = xml_declaration() + start_tag("Error"@);
    let a = text_element("Code"@, code);
    let b = text_element("Message"@, message);
    let end = end_tag("Error"@);
    lemma_occurs_in_itself(a);
    lemma_occurs_in_itself(b);
    lemma_occurs_within(start, a, b + end, a);
    assert(start + a + (b + end) =~= error_document(code, message));
    lemma_occurs_within(start + a, b, end, b);
}

/// The replies with an object and about it tell when it was last modified, where that is known.
pub proof fn law_replies_tell_the_time(
    meta: VersionMeta,
    start: u64,
    end: u64,
    date: Seq<char>,
)
    ensures
        get_headers(meta, Some(date)).contains(("last-modified"@, date)),
        head_headers(meta, Some(date)).contains(("last-modified"@, date)),
        range_headers(meta, start, end, Some(date)).contains(("last-modified"@, date)),
{
    let a = get_headers(meta, Some(date));
    let b = head_headers(meta, Some(date));
    let c = range_headers(meta, start, end, Some(date));
    assert(a.last() == ("last-modified"@, date));
    assert(b.last() == ("last-modified"@, date));
    assert(c.last() == ("last-modified"@, date));
}

/// The objects of a listing are shown in their order.
pub proof fn law_objects_are_shown_in_order(a: Seq<ContentEntry>, b: Seq<ContentEntry>)
    ensures
        content_elements(a + b) == content_elements(a) + content_elements(b),
    decreases b.len(),
{
    if b.len() > 0 {
        law_objects_are_shown_in_order(a, b.drop_last());
        assert((a + b).drop_last() =~= a + b.drop_last());
        assert((a + b).last() == b.last());
        assert(content_elements(a + b) =~= content_elements(a) + content_elements(b));
    } else {
        assert(a + b =~= a);
        assert(content_elements(a) + content_elements(b) =~= content_elements(a));
    }
}

/// The common prefixes of a listing are shown in their order.
pub proof fn law_prefixes_are_shown_in_order(a: Seq<String>, b: Seq<String>)
    ensures
        prefix_elements(a + b) == prefix_elements(a) + prefix_elements(b),
    decreases b.len(),
{
    if b.len() > 0 {
        law_prefixes_are_shown_in_order(a, b.drop_last());
        assert((a + b).drop_last() =~= a + b.drop_last());
        assert((a + b).last() == b.last());
        assert(prefix_elements(a + b) =~= prefix_elements(a) + prefix_elements(b));
    } else {
        assert(a + b =~= a);
        assert(prefix_elements(a) + prefix_elements(b) =~= prefix_elements(a));
    }
}

/// The buckets of a listing are shown in their order.
pub proof fn law_buckets_are_shown_in_order(a: Seq<BucketMeta>, b: Seq<BucketMeta>)
    ensures
        bucket_elements(a + b) == bucket_elements(a) + bucket_elements(b),
    decreases b.len(),
{
    if b.len() > 0 {
        law_buckets_are_shown_in_order(a, b.drop_last());
        assert((a + b).drop_last() =~= a + b.drop_last());
        assert((a + b).last() == b.last());
        assert(bucket_elements(a + b) =~= bucket_elements(a) + bucket_elements(b));
    } else {
        assert(a + b =~= a);
        assert(bucket_elements(a) + bucket_elements(b) =~= bucket_elements(a));
    }
}

/// The document of a listing repeats what was asked: the bucket, the prefix, the marker and the
/// number of objects.
pub proof fn law_document_repeats_the_request(
    bucket_name: Seq<char>,
    prefix: Option<String>,
    marker: Option<String>,
    max_keys: nat,
    is_truncated: bool,
    next_marker: Option<String>,
    contents: Seq<ContentEntry>,
    common_prefixes: Seq<String>,
)
    ensures
        ({
            let document = list_document(
                bucket_name,
                prefix,
                marker,
                max_keys,
                is_truncated,
                next_marker,
                contents,
                common_prefixes,
            );
            &&& occurs(document, text_element("Name"@, bucket_name))
            &&& occurs(document, text_element("MaxKeys"@, decimal(max_keys)))
            &&& prefix matches Some(p) ==> occurs(document, text_element("Prefix"@, p@))
            &&& marker matches Some(m) ==> occurs(document, text_element("Marker"@, m@))
        }),
{
    let document = list_document(
        bucket_name,
        prefix,
        marker,
        max_keys,
        is_truncated,
        next_marker,
        contents,
        common_prefixes,
    );
    let root = xml_declaration() + root_tag("ListBucketResult"@);
    let name = text_element("Name"@, bucket_name);
    let asked = optional_element("Prefix"@, prefix);
    let behind = optional_element("Marker"@, marker);
    let most = text_element("MaxKeys"@, decimal(max_keys));
    let rest = text_element("IsTruncated"@, bool_text(is_truncated)) + optional_element(
        "NextMarker"@,
        next_marker,
    ) + content_elements(contents) + prefix_elements(common_prefixes) + end_tag(
        "ListBucketResult"@,
    );
    assert(document =~= root + name + asked + behind + most + rest);
    lemma_occurs_in_itself(name);
    lemma_occurs_in_itself(asked);
    lemma_occurs_in_itself(behind);
    lemma_occurs_in_itself(most);
    lemma_occurs_in_part(root, name, asked, behind, most, rest, name);
    lemma_occurs_in_part(root, name, asked, behind, most, rest, asked);
    lemma_occurs_in_part(root, name, asked, behind, most, rest, behind);
    lemma_occurs_in_part(root, name, asked, behind, most, rest, most);
}

/// The reply to a request for something that is missing names it.
pub proof fn law_reply_names_what_is_missing(err: StorageError)
    ensures
        err matches StorageError::NotFound(key) ==> occurs(error_reply_of(err).2, key@),
        err matches StorageError::BucketNotFound(name) ==> occurs(error_reply_of(err).2, name@),
{
    let none = Seq::<char>::empty();
    match err {
        StorageError::NotFound(key) => {
            let head = "The specified key does not exist: "@;
            lemma_occurs_in_itself(key@);
            lemma_occurs_within(head, key@, none, key@);
            assert(head + key@ + none =~= head + key@);
        },
        StorageError::BucketNotFound(name) => {
            let head = "The specified bucket does not exist: "@;
            lemma_occurs_in_itself(name@);
            lemma_occurs_within(head, name@, none, name@);
            assert(head + name@ + none =~= head + name@);
        },
        _ => {},
    }
}

/// Every name without a slash and a colon is allowed for a bucket.
pub proof fn law_plain_names_are_allowed(name: Seq<char>)
    requires
        name.len() > 0,
        forall|i: int| 0 <= i < name.len() ==> (#[trigger] name[i]) != '/' && name[i] != ':',
    ensures
        is_bucket_name(name),
{
}

} // verus!
