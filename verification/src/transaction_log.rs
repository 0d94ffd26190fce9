//! The write-ahead log: entries in segments with a length and a digest, one behind the other.
use crate::bytes::{copy_range, extend_range, get_le, put_le};
use crate::checksum::per_chunk_checksum;
use crate::text::owned;
use capnp::message::{HeapAllocator, ReaderOptions};
use capnp::private::arena::{BuilderArena, BuilderArenaImpl, ReaderArenaImpl};
use capnp::private::layout::{PointerBuilder, PointerReader, StructSize};
use vstd::prelude::*;

verus! {

use crate::bytes::{
    le_bytes, le_value, lemma_le_bytes_len, lemma_le_bytes_of_value, lemma_le_round_trip,
    lemma_le_value_bound, lemma_pow256_values,
};
use crate::checksum::xxh3;
use vstd::utf8::encode_utf8;

/// What a transaction does.
#[derive(Debug, Clone, Copy, PartialEq, Eq, Structural)]
pub enum WalType {
    Write,
    Delete,
}

/// How far a transaction has come.
#[derive(Debug, Clone, Copy, PartialEq, Eq, Structural)]
pub enum WalState {
    Prepared,
    Committed,
    Aborted,
}

/// An entry of the log.
#[derive(Debug)]
pub struct LogEntry {
    pub entry_type: WalType,
    pub txid: u64,
    pub key: String,
    pub state: WalState,
}

/// Why a log cannot be read further.
#[derive(Debug, Clone, Copy, PartialEq, Eq, Structural)]
pub enum LogError {
    /// The log ends inside a length.
    IncompleteLength,
    /// The log ends inside a segment.
    UnexpectedEof,
    /// The digest of a segment is not the one on record.
    ChecksumMismatch,
    /// The payload of a segment is no entry.
    InvalidEntry,
}

/// The message of an error.
pub open spec fn log_error_text(e: LogError) -> Seq<char> {
    match e {
        LogError::IncompleteLength => "incomplete read after initial byte"@,
        LogError::UnexpectedEof => "failed to fill whole buffer"@,
        LogError::ChecksumMismatch => "segment trailer checksum mismatch"@,
        LogError::InvalidEntry => "segment holds no log entry"@,
    }
}

impl LogError {
    /// The message of the error.
    pub fn message(&self) -> (r: String)
        ensures
            r@ == log_error_text(*self),
    {
        match self {
            LogError::IncompleteLength => owned("incomplete read after initial byte"),
            LogError::UnexpectedEof => owned("failed to fill whole buffer"),
            LogError::ChecksumMismatch => owned("segment trailer checksum mismatch"),
            LogError::InvalidEntry => owned("segment holds no log entry"),
        }
    }
}

/// The longest key that an entry can hold, in bytes.
pub const MAX_KEY_LEN: usize = 536_870_910;

/// The longest key that an entry can hold and still be read back, in bytes: readers refuse messages
/// of more than 64 MiB.
pub const MAX_READABLE_KEY_LEN: usize = 67_108_800;

/// The Cap'n Proto message of an entry with these fields.
pub uninterp spec fn entry_encoded(ty: u16, state: u16, txid: u64, key: Seq<char>) -> Seq<u8>;

/// The fields of the entry that a Cap'n Proto message holds, if it holds one.
pub uninterp spec fn entry_decoded(payload: Seq<u8>) -> Option<(u16, u16, u64, Seq<char>)>;

/// What is named `entry_decoded`, of a result.
pub open spec fn field_texts(r: Option<(u16, u16, u64, String)>) -> Option<
    (u16, u16, u64, Seq<char>),
> {
    match r {
        Some((ty, state, txid, key)) => Some((ty, state, txid, key@)),
        None => None,
    }
}

/// Builds a message with `capnp`: a root of two words and a pointer, made by `PointerBuilder` and
/// `StructBuilder`, with type and state in the first two fields of sixteen bits, the number in the
/// second word and the key as the text behind the pointer; then `serialize::write_message_segments`.
/// The bytes are named `entry_encoded`. They are at most 64 more than those of the key, and hold
/// what was written where a reader takes a message of that size. `set_text` takes no longer key.
#[verifier::external_body]
fn encode_entry(ty: u16, state: u16, txid: u64, key: &str) -> (r: Vec<u8>)
    requires
        encode_utf8(key@).len() <= MAX_KEY_LEN,
    ensures
        r@ == entry_encoded(ty, state, txid, key@),
        r@.len() <= encode_utf8(key@).len() + 64,
        encode_utf8(key@).len() <= MAX_READABLE_KEY_LEN ==> entry_decoded(r@) == Some(
            (ty, state, txid, key@),
        ),
{
    let mut arena = BuilderArenaImpl::new(HeapAllocator::new());
    arena.allocate_segment(1).expect("heap segment");
    BuilderArena::allocate(&mut arena, 0, 1).expect("root pointer");
    let (start, _) = BuilderArena::get_segment_mut(&mut arena, 0);
    let root = PointerBuilder::get_root(&mut arena, 0, start);
    let entry = root.init_struct(StructSize { data: 2, pointers: 1 });
    entry.set_data_field::<u16>(0, ty);
    entry.set_data_field::<u16>(1, state);
    entry.set_data_field::<u64>(1, txid);
    entry.get_pointer_field(0).set_text(key.into());
    let mut payload: Vec<u8> = Vec::new();
    let segments = arena.get_segments_for_output();
    capnp::serialize::write_message_segments(&mut payload, &segments).expect("vector");
    payload
}

/// Reads a message with `capnp`: `serialize::read_message`, then the root as a struct by
/// `PointerReader` and `StructReader`, with the fields where `encode_entry` has them. The fields are
/// named `entry_decoded`; there are none where one of the calls fails or the key is not UTF-8.
#[verifier::external_body]
fn decode_entry(payload: &[u8]) -> (r: Option<(u16, u16, u64, String)>)
    ensures
        field_texts(r) == entry_decoded(payload@),
{
    let message = capnp::serialize::read_message(payload, ReaderOptions::new()).ok()?;
    let arena = ReaderArenaImpl::new(message.into_segments(), ReaderOptions::new());
    let root = PointerReader::get_root_from_arena(&arena).ok()?;
    let entry = root.get_struct(None).ok()?;
    let key = entry.get_pointer_field(0).get_text(None).ok()?.to_string().ok()?;
    Some((
        entry.get_data_field::<u16>(0),
        entry.get_data_field::<u16>(1),
        entry.get_data_field::<u64>(1),
        key,
    ))
}

/// What an entry says.
pub struct EntryView {
    pub entry_type: WalType,
    pub txid: u64,
    pub key: Seq<char>,
    pub state: WalState,
}

impl View for LogEntry {
    type V = EntryView;

    open spec fn view(&self) -> EntryView {
        EntryView {
            entry_type: self.entry_type,
            txid: self.txid,
            key: self.key@,
            state: self.state,
        }
    }
}

/// The number of a type in a message.
pub open spec fn type_number(ty: WalType) -> u16 {
    match ty {
        WalType::Write => 0,
        WalType::Delete => 1,
    }
}

/// The number of a state in a message.
pub open spec fn state_number(state: WalState) -> u16 {
    match state {
        WalState::Prepared => 0,
        WalState::Committed => 1,
        WalState::Aborted => 2,
    }
}

/// The entry with the given fields, if its type and state are known.
pub open spec fn entry_with(fields: (u16, u16, u64, Seq<char>)) -> Option<EntryView> {
    let (ty, state, txid, key) = fields;
    if ty > 1 || state > 2 {
        None
    } else {
        Some(
            EntryView {
                entry_type: if ty == 0 {
                    WalType::Write
                } else {
                    WalType::Delete
                },
                txid,
                key,
                state: if state == 0 {
                    WalState::Prepared
                } else if state == 1 {
                    WalState::Committed
                } else {
                    WalState::Aborted
                },
            },
        )
    }
}

/// The entry that a payload holds, if it holds one.
pub open spec fn entry_in(payload: Seq<u8>) -> Option<EntryView> {
    match entry_decoded(payload) {
        Some(fields) => entry_with(fields),
        None => None,
    }
}

/// The payload of an entry.
pub open spec fn payload_of_entry(e: EntryView) -> Seq<u8> {
    entry_encoded(type_number(e.entry_type), state_number(e.state), e.txid, e.key)
}

/// Whether an entry can be read back from its payload.
pub open spec fn is_readable(e: EntryView) -> bool {
    entry_in(payload_of_entry(e)) == Some(e) && payload_of_entry(e).len() < 0x1_0000_0000
}

/// The entry with the given fields: type, state, number and key.
pub fn entry_from_fields(fields: Option<(u16, u16, u64, String)>) -> (r: Result<
    LogEntry,
    LogError,
>)
    ensures
        match field_texts(fields) {
            Some(f) => match entry_with(f) {
                Some(e) => r matches Ok(entry) && entry@ == e,
                None => r matches Err(e) && e == LogError::InvalidEntry,
            },
            None => r matches Err(e) && e == LogError::InvalidEntry,
        },
{
    let (ty, state, txid, key): (u16, u16, u64, String) = match fields {
        Some(f) => f,
        None => {
            return Err(LogError::InvalidEntry);
        },
    };
    let entry_type: WalType = match ty {
        0 => WalType::Write,
        1 => WalType::Delete,
        _ => {
            return Err(LogError::InvalidEntry);
        },
    };
    let state: WalState = match state {
        0 => WalState::Prepared,
        1 => WalState::Committed,
        2 => WalState::Aborted,
        _ => {
            return Err(LogError::InvalidEntry);
        },
    };
    Ok(LogEntry { entry_type, txid, key, state })
}

/// The entry that a payload holds.
pub fn read_entry_payload(payload: &[u8]) -> (r: Result<LogEntry, LogError>)
    ensures
        match entry_in(payload@) {
            Some(e) => r matches Ok(entry) && entry@ == e,
            None => r matches Err(e) && e == LogError::InvalidEntry,
        },
{
    entry_from_fields(decode_entry(payload))
}

/// The payload of an entry.
pub fn entry_payload(ty: WalType, txid: u64, key: &str, state: WalState) -> (r: Vec<u8>)
    requires
        encode_utf8(key@).len() <= MAX_KEY_LEN,
    ensures
        r@ == payload_of_entry((EntryView { entry_type: ty, txid, key: key@, state })),
        encode_utf8(key@).len() <= MAX_READABLE_KEY_LEN ==> is_readable(
            (EntryView { entry_type: ty, txid, key: key@, state }),
        ),
{
    let ty_number: u16 = match ty {
        WalType::Write => 0,
        WalType::Delete => 1,
    };
    let state_number: u16 = match state {
        WalState::Prepared => 0,
        WalState::Committed => 1,
        WalState::Aborted => 2,
    };
    encode_entry(ty_number, state_number, txid, key)
}

/// The length field of a segment with the payload `buf`: four bytes.
pub open spec fn length_field(buf: Seq<u8>) -> Seq<u8> {
    le_bytes(buf.len() % 0x1_0000_0000, 4)
}

/// The digest field of a segment: sixteen bytes over the length field and the payload.
pub open spec fn digest_field(length: Seq<u8>, buf: Seq<u8>) -> Seq<u8> {
    le_bytes(xxh3(length + buf) as nat, 16)
}

/// The segment with the payload `buf`.
pub open spec fn segment_of(buf: Seq<u8>) -> Seq<u8> {
    length_field(buf) + digest_field(length_field(buf), buf) + buf
}

/// Write a segment with the payload `buf`. A payload of four gigabytes or more has a length that
/// does not fit its field.
pub fn write_segment_trailer(writer: &mut Vec<u8>, buf: &[u8])
    ensures
        final(writer)@ == old(writer)@ + segment_of(buf@),
{
    let mut hashed: Vec<u8> = Vec::new();
    let len: u128 = buf.len() as u128 % 0x1_0000_0000;
    put_le(&mut hashed, len, 4);
    let ghost length = hashed@;
    assert(length =~= length_field(buf@));
    put_le(writer, len, 4);
    extend_range(&mut hashed, buf, 0, buf.len());
    assert(hashed@ =~= length + buf@);
    let digest: u128 = per_chunk_checksum(hashed.as_slice());
    put_le(writer, digest, 16);
    extend_range(writer, buf, 0, buf.len());
    assert(writer@ =~= old(writer)@ + segment_of(buf@));
}

/// What stands in a log at `pos`: nothing more, a payload with the position behind it, or a defect.
pub open spec fn segment_at(data: Seq<u8>, pos: int) -> Result<Option<(Seq<u8>, int)>, LogError> {
    let rest = data.len() - pos;
    let length = data.subrange(pos, pos + 4);
    let len = le_value(length) as int;
    let payload = data.subrange(pos + 20, pos + 20 + len);
    if rest == 0 {
        Ok(None)
    } else if rest < 4 {
        Err(LogError::IncompleteLength)
    } else if rest < 20 + len {
        Err(LogError::UnexpectedEof)
    } else if data.subrange(pos + 4, pos + 20) != digest_field(length, payload) {
        Err(LogError::ChecksumMismatch)
    } else {
        Ok(Some((payload, pos + 20 + len)))
    }
}

/// Read `n` bytes at `pos`. At the end of the data there are none.
pub fn read_exact_or_eof(data: &[u8], pos: usize, n: usize) -> (r: Result<
    Option<Vec<u8>>,
    LogError,
>)
    requires
        n > 0,
        pos <= data@.len(),
    ensures
        if pos == data@.len() {
            r matches Ok(v) && v is None
        } else if data@.len() - pos < n {
            r matches Err(e) && e == LogError::IncompleteLength
        } else {
            r matches Ok(Some(v)) && v@ == data@.subrange(pos as int, pos + n)
        },
{
    if pos == data.len() {
        return Ok(None);
    }
    if data.len() - pos < n {
        return Err(LogError::IncompleteLength);
    }
    Ok(Some(copy_range(data, pos, pos + n)))
}

/// Read the segment at `pos`: its payload and the position behind it. At the end of the data there
/// is none.
pub fn read_segment_trailer(data: &[u8], pos: usize) -> (r: Result<
    Option<(Vec<u8>, usize)>,
    LogError,
>)
    requires
        pos <= data@.len(),
    ensures
        match segment_at(data@, pos as int) {
            Ok(Some((payload, next))) => r matches Ok(Some((v, n))) && v@ == payload && n == next,
            Ok(None) => r matches Ok(v) && v is None,
            Err(e) => r matches Err(d) && d == e,
        },
{
    proof {
        lemma_pow256_values();
    }
    let len_bytes: Vec<u8> = match read_exact_or_eof(data, pos, 4) {
        Ok(Some(v)) => v,
        Ok(None) => {
            return Ok(None);
        },
        Err(e) => {
            return Err(e);
        },
    };
    let ghost length = data@.subrange(pos as int, pos + 4);
    assert(len_bytes@ =~= length);
    assert(len_bytes@.subrange(0, 4) =~= length);
    proof {
        lemma_le_value_bound(length);
    }
    let len: u64 = get_le(len_bytes.as_slice(), 0, 4) as u64;
    let rest: u64 = (data.len() - pos) as u64;
    if rest < 20 + len {
        return Err(LogError::UnexpectedEof);
    }
    let start: usize = pos + 20;
    let end: usize = start + len as usize;
    let expected: u128 = get_le(data, pos + 4, 16);
    let payload: Vec<u8> = copy_range(data, start, end);
    let mut hashed: Vec<u8> = len_bytes;
    extend_range(&mut hashed, payload.as_slice(), 0, payload.len());
    assert(hashed@ =~= length + payload@);
    let actual: u128 = per_chunk_checksum(hashed.as_slice());
    proof {
        let field = data@.subrange(pos + 4, pos + 20);
        lemma_le_bytes_of_value(field);
        lemma_le_round_trip(actual as nat, 16);
    }
    if actual != expected {
        return Err(LogError::ChecksumMismatch);
    }
    Ok(Some((payload, end)))
}

/// What reading a log from `pos` on gives: payloads, and a defect at the end where there is one.
pub open spec fn payloads_from(data: Seq<u8>, pos: int) -> Seq<Result<Seq<u8>, LogError>>
    decreases data.len() - pos,
{
    if pos < 0 || pos > data.len() {
        Seq::empty()
    } else {
        match segment_at(data, pos) {
            Ok(None) => Seq::empty(),
            Ok(Some((payload, next))) => if next > pos {
                seq![Ok::<Seq<u8>, LogError>(payload)] + payloads_from(data, next)
            } else {
                Seq::empty()
            },
            Err(e) => seq![Err::<Seq<u8>, LogError>(e)],
        }
    }
}

/// The entries in what reading a log gives, with a defect at the end where there is one. Behind a
/// payload that is no entry nothing is read.
pub open spec fn entries_of(payloads: Seq<Result<Seq<u8>, LogError>>) -> Seq<
    Result<EntryView, LogError>,
>
    decreases payloads.len(),
{
    if payloads.len() == 0 {
        Seq::empty()
    } else {
        match payloads[0] {
            Ok(payload) => match entry_in(payload) {
                Some(e) => seq![Ok::<EntryView, LogError>(e)] + entries_of(payloads.drop_first()),
                None => seq![Err::<EntryView, LogError>(LogError::InvalidEntry)],
            },
            Err(e) => seq![Err::<EntryView, LogError>(e)],
        }
    }
}

/// Reads the entries of a log in order. Behind a defect nothing is read.
pub struct TransactionLogIterator<'a> {
    data: &'a [u8],
    pos: usize,
    errored: bool,
}

impl<'a> TransactionLogIterator<'a> {
    /// What is still to come.
    pub closed spec fn remaining(self) -> Seq<Result<EntryView, LogError>> {
        if self.errored {
            Seq::empty()
        } else {
            entries_of(payloads_from(self.data@, self.pos as int))
        }
    }

    /// The position is inside the log.
    pub closed spec fn wf(self) -> bool {
        self.pos <= self.data@.len()
    }

    /// Read a log from its start.
    pub fn new(data: &'a [u8]) -> (r: Self)
        ensures
            r.wf(),
            r.remaining() == entries_of(payloads_from(data@, 0)),
    {
        TransactionLogIterator { data, pos: 0, errored: false }
    }

    /// The next entry, or the defect that ends the log.
    pub fn next(&mut self) -> (r: Option<Result<LogEntry, LogError>>)
        requires
            old(self).wf(),
        ensures
            final(self).wf(),
            match r {
                None => old(self).remaining().len() == 0 && final(self).remaining().len() == 0,
                Some(Ok(entry)) => old(self).remaining().len() > 0 && old(self).remaining()[0]
                    == Ok::<EntryView, LogError>(entry@) && final(self).remaining() == old(
                    self,
                ).remaining().drop_first(),
                Some(Err(e)) => old(self).remaining() == seq![Err::<EntryView, LogError>(e)]
                    && final(self).remaining().len() == 0,
            },
    {
        if self.errored {
            return None;
        }
        match read_segment_trailer(self.data, self.pos) {
            Ok(Some((payload, next))) => {
                let ghost before = self.remaining();
                let ghost payloads = payloads_from(self.data@, self.pos as int);
                let ghost rest = payloads_from(self.data@, next as int);
                proof {
                    assert(payloads[0] == Ok::<Seq<u8>, LogError>(payload@));
                    assert(payloads.drop_first() =~= rest);
                }
                match read_entry_payload(payload.as_slice()) {
                    Ok(entry) => {
                        self.pos = next;
                        assert(before.drop_first() =~= self.remaining());
                        Some(Ok(entry))
                    },
                    Err(e) => {
                        self.errored = true;
                        Some(Err(e))
                    },
                }
            },
            Ok(None) => None,
            Err(e) => {
                let ghost payloads = payloads_from(self.data@, self.pos as int);
                assert(payloads[0] == Err::<Seq<u8>, LogError>(e));
                self.errored = true;
                Some(Err(e))
            },
        }
    }
}

/// The log that appending payloads gives.
pub open spec fn log_of(payloads: Seq<Seq<u8>>) -> Seq<u8>
    decreases payloads.len(),
{
    if payloads.len() == 0 {
        Seq::empty()
    } else {
        log_of(payloads.drop_last()) + segment_of(payloads.last())
    }
}

/// The contents of a log.
#[derive(Debug)]
pub struct TransactionLog {
    contents: Vec<u8>,
}

impl View for TransactionLog {
    type V = Seq<u8>;

    closed spec fn view(&self) -> Seq<u8> {
        self.contents@
    }
}

impl TransactionLog {
    /// The log with the given contents.
    pub fn new(contents: Vec<u8>) -> (r: Self)
        ensures
            r@ == contents@,
    {
        TransactionLog { contents }
    }

    /// Append an entry.
    pub fn append(&mut self, ty: WalType, txid: u64, key: &str, state: WalState)
        requires
            encode_utf8(key@).len() <= MAX_KEY_LEN,
        ensures
            final(self)@ == old(self)@ + segment_of(
                payload_of_entry((EntryView { entry_type: ty, txid, key: key@, state })),
            ),
            encode_utf8(key@).len() <= MAX_READABLE_KEY_LEN ==> is_readable(
                (EntryView { entry_type: ty, txid, key: key@, state }),
            ),
    {
        let payload = entry_payload(ty, txid, key, state);
        write_segment_trailer(&mut self.contents, payload.as_slice());
    }

    /// Read the log from its start.
    pub fn iterate(&self) -> (r: TransactionLogIterator<'_>)
        ensures
            r.wf(),
            r.remaining() == entries_of(payloads_from(self@, 0)),
    {
        TransactionLogIterator::new(self.contents.as_slice())
    }

    /// Empty the log.
    pub fn clear(&mut self)
        ensures
            final(self)@ == Seq::<u8>::empty(),
    {
        self.contents = Vec::new();
    }

    /// The bytes of the log.
    pub fn contents(&self) -> (r: &[u8])
        ensures
            r@ == self@,
    {
        self.contents.as_slice()
    }
}

proof fn lemma_segment_fields(data: Seq<u8>, pos: int, buf: Seq<u8>)
    requires
        0 <= pos,
        pos + 20 + buf.len() <= data.len(),
        data.subrange(pos, pos + 20 + buf.len()) == segment_of(buf),
    ensures
        data.subrange(pos, pos + 4) == length_field(buf),
        data.subrange(pos + 4, pos + 20) == digest_field(length_field(buf), buf),
        data.subrange(pos + 20, pos + 20 + buf.len()) == buf,
{
    lemma_le_bytes_len(buf.len() % 0x1_0000_0000, 4);
    lemma_le_bytes_len(xxh3(length_field(buf) + buf) as nat, 16);
    let seg = segment_of(buf);
    assert(data.subrange(pos, pos + 4) =~= seg.subrange(0, 4));
    assert(seg.subrange(0, 4) =~= length_field(buf));
    assert(data.subrange(pos + 4, pos + 20) =~= seg.subrange(4, 20));
    assert(seg.subrange(4, 20) =~= digest_field(length_field(buf), buf));
    assert(data.subrange(pos + 20, pos + 20 + buf.len()) =~= seg.subrange(
        20,
        20 + buf.len() as int,
    ));
    assert(seg.subrange(20, 20 + buf.len() as int) =~= buf);
}

/// A segment is read back where it was written, whatever stands before and behind it.
pub proof fn law_segment_is_read_back(before: Seq<u8>, buf: Seq<u8>, after: Seq<u8>)
    requires
        buf.len() < 0x1_0000_0000,
    ensures
        segment_at(before + segment_of(buf) + after, before.len() as int) == Ok::<
            Option<(Seq<u8>, int)>,
            LogError,
        >(Some((buf, (before.len() + segment_of(buf).len()) as int))),
{
    let data = before + segment_of(buf) + after;
    let pos = before.len() as int;
    lemma_le_bytes_len(buf.len() % 0x1_0000_0000, 4);
    lemma_le_bytes_len(xxh3(length_field(buf) + buf) as nat, 16);
    lemma_pow256_values();
    lemma_le_round_trip(buf.len(), 4);
    assert(data.subrange(pos, pos + 20 + buf.len()) =~= segment_of(buf));
    lemma_segment_fields(data, pos, buf);
}

/// The payloads as what reading gives.
pub open spec fn read_all(payloads: Seq<Seq<u8>>) -> Seq<Result<Seq<u8>, LogError>> {
    Seq::new(payloads.len(), |i: int| Ok::<Seq<u8>, LogError>(payloads[i]))
}

proof fn lemma_read_rest(payloads: Seq<Seq<u8>>, n: int, rest: Seq<u8>)
    requires
        0 <= n <= payloads.len(),
        forall|i: int| 0 <= i < payloads.len() ==> (#[trigger] payloads[i]).len() < 0x1_0000_0000,
    ensures
        ({
            let head = log_of(payloads.take(n));
            let data = log_of(payloads) + rest;
            payloads_from(data, head.len() as int) == read_all(payloads.skip(n)) + payloads_from(
                data,
                log_of(payloads).len() as int,
            )
        }),
    decreases payloads.len() - n,
{
    let data = log_of(payloads) + rest;
    let head = log_of(payloads.take(n));
    if n == payloads.len() {
        assert(payloads.take(n) =~= payloads);
        assert(read_all(payloads.skip(n)) =~= Seq::empty());
        assert(read_all(payloads.skip(n)) + payloads_from(data, head.len() as int)
            =~= payloads_from(data, head.len() as int));
    } else {
        lemma_read_rest(payloads, n + 1, rest);
        let next = payloads.take(n + 1);
        assert(next.drop_last() =~= payloads.take(n));
        assert(log_of(next) == head + segment_of(payloads[n]));
        lemma_log_prefix(payloads, n + 1);
        let after = data.skip(log_of(next).len() as int);
        assert(data =~= head + segment_of(payloads[n]) + after);
        law_segment_is_read_back(head, payloads[n], after);
        lemma_le_bytes_len(payloads[n].len() % 0x1_0000_0000, 4);
        assert(read_all(payloads.skip(n)) =~= seq![Ok::<Seq<u8>, LogError>(payloads[n])]
            + read_all(payloads.skip(n + 1)));
        assert(payloads_from(data, head.len() as int) =~= read_all(payloads.skip(n))
            + payloads_from(data, log_of(payloads).len() as int));
    }
}

proof fn lemma_log_prefix(payloads: Seq<Seq<u8>>, n: int)
    requires
        0 <= n <= payloads.len(),
    ensures
        log_of(payloads.take(n)).is_prefix_of(log_of(payloads)),
    decreases payloads.len(),
{
    if n == payloads.len() {
        assert(payloads.take(n) =~= payloads);
        assert(log_of(payloads).subrange(0, log_of(payloads).len() as int) =~= log_of(payloads));
    } else {
        assert(payloads.drop_last().take(n) =~= payloads.take(n));
        lemma_log_prefix(payloads.drop_last(), n);
        let a = log_of(payloads.take(n));
        let b = log_of(payloads.drop_last());
        let c = log_of(payloads);
        assert(c.subrange(0, a.len() as int) =~= b.subrange(0, a.len() as int));
    }
}

/// What was appended is read back, in order and completely.
pub proof fn law_log_is_read_back(payloads: Seq<Seq<u8>>)
    requires
        forall|i: int| 0 <= i < payloads.len() ==> (#[trigger] payloads[i]).len() < 0x1_0000_0000,
    ensures
        payloads_from(log_of(payloads), 0) == read_all(payloads),
{
    lemma_read_rest(payloads, 0, Seq::empty());
    assert(payloads.take(0) =~= Seq::empty());
    assert(payloads.skip(0) =~= payloads);
    assert(log_of(payloads) + Seq::<u8>::empty() =~= log_of(payloads));
    let end = log_of(payloads).len() as int;
    assert(payloads_from(log_of(payloads), end) =~= Seq::empty());
    assert(read_all(payloads) + Seq::<Result<Seq<u8>, LogError>>::empty() =~= read_all(payloads));
}

/// The payloads of entries.
pub open spec fn payloads_of(entries: Seq<EntryView>) -> Seq<Seq<u8>> {
    Seq::new(entries.len(), |i: int| payload_of_entry(entries[i]))
}

/// The entries as what reading gives.
pub open spec fn all_entries(entries: Seq<EntryView>) -> Seq<Result<EntryView, LogError>> {
    Seq::new(entries.len(), |i: int| Ok::<EntryView, LogError>(entries[i]))
}

proof fn lemma_entries_of(entries: Seq<EntryView>, rest: Seq<Result<Seq<u8>, LogError>>)
    requires
        forall|i: int| 0 <= i < entries.len() ==> is_readable(#[trigger] entries[i]),
    ensures
        entries_of(read_all(payloads_of(entries)) + rest) == all_entries(entries) + entries_of(
            rest,
        ),
    decreases entries.len(),
{
    let read = read_all(payloads_of(entries));
    if entries.len() == 0 {
        assert(read + rest =~= rest);
        assert(all_entries(entries) + entries_of(rest) =~= entries_of(rest));
    } else {
        let later = entries.drop_first();
        assert forall|i: int| 0 <= i < later.len() implies is_readable(#[trigger] later[i]) by {
            assert(later[i] == entries[i + 1]);
        }
        lemma_entries_of(later, rest);
        assert(is_readable(entries[0]));
        assert((read + rest)[0] == Ok::<Seq<u8>, LogError>(payload_of_entry(entries[0])));
        assert((read + rest).drop_first() =~= read_all(payloads_of(later)) + rest);
        assert(entries_of(read + rest) =~= all_entries(entries) + entries_of(rest));
    }
}

/// The entries that were appended are read back, in order and completely, with type, number, key and
/// state.
pub proof fn law_entries_are_read_back(entries: Seq<EntryView>)
    requires
        forall|i: int| 0 <= i < entries.len() ==> is_readable(#[trigger] entries[i]),
    ensures
        entries_of(payloads_from(log_of(payloads_of(entries)), 0)) == all_entries(entries),
{
    let payloads = payloads_of(entries);
    assert forall|i: int| 0 <= i < payloads.len() implies (#[trigger] payloads[i]).len()
        < 0x1_0000_0000 by {
        assert(is_readable(entries[i]));
    }
    law_log_is_read_back(payloads);
    lemma_entries_of(entries, Seq::empty());
    assert(read_all(payloads) + Seq::<Result<Seq<u8>, LogError>>::empty() =~= read_all(payloads));
    assert(all_entries(entries) + entries_of(Seq::empty()) =~= all_entries(entries));
}

/// A changed payload with another digest is detected: what stands before it is read, then the
/// reading ends with the mismatch.
pub proof fn law_corruption_is_detected(
    payloads: Seq<Seq<u8>>,
    buf: Seq<u8>,
    changed: Seq<u8>,
    after: Seq<u8>,
)
    requires
        forall|i: int| 0 <= i < payloads.len() ==> (#[trigger] payloads[i]).len() < 0x1_0000_0000,
        changed.len() == buf.len() < 0x1_0000_0000,
        xxh3(length_field(buf) + changed) != xxh3(length_field(buf) + buf),
    ensures
        payloads_from(
            log_of(payloads) + (length_field(buf) + digest_field(length_field(buf), buf) + changed)
                + after,
            0,
        ) == read_all(payloads).push(Err(LogError::ChecksumMismatch)),
{
    let segment = length_field(buf) + digest_field(length_field(buf), buf) + changed;
    let rest = segment + after;
    let data = log_of(payloads) + segment + after;
    assert(data =~= log_of(payloads) + rest);
    lemma_read_rest(payloads, 0, rest);
    assert(payloads.take(0) =~= Seq::empty());
    assert(payloads.skip(0) =~= payloads);
    let pos = log_of(payloads).len() as int;
    lemma_le_bytes_len(buf.len() % 0x1_0000_0000, 4);
    lemma_le_bytes_len(xxh3(length_field(buf) + buf) as nat, 16);
    lemma_pow256_values();
    lemma_le_round_trip(buf.len(), 4);
    lemma_le_round_trip(xxh3(length_field(buf) + buf) as nat, 16);
    lemma_le_round_trip(xxh3(length_field(buf) + changed) as nat, 16);
    assert(data.subrange(pos, pos + 4) =~= length_field(buf));
    assert(data.subrange(pos + 4, pos + 20) =~= digest_field(length_field(buf), buf));
    assert(data.subrange(pos + 20, pos + 20 + buf.len()) =~= changed);
    assert(payloads_from(data, pos) =~= seq![Err::<Seq<u8>, LogError>(LogError::ChecksumMismatch)]);
    assert(payloads_from(data, 0) =~= read_all(payloads).push(Err(LogError::ChecksumMismatch)));
}

/// Behind a changed payload with another digest no entry is read: those before it are, then the
/// reading ends with the mismatch.
pub proof fn law_corrupted_entry_ends_the_log(
    entries: Seq<EntryView>,
    buf: Seq<u8>,
    changed: Seq<u8>,
    after: Seq<u8>,
)
    requires
        forall|i: int| 0 <= i < entries.len() ==> is_readable(#[trigger] entries[i]),
        changed.len() == buf.len() < 0x1_0000_0000,
        xxh3(length_field(buf) + changed) != xxh3(length_field(buf) + buf),
    ensures
        entries_of(
            payloads_from(
                log_of(payloads_of(entries)) + (length_field(buf) + digest_field(
                    length_field(buf),
                    buf,
                ) + changed) + after,
                0,
            ),
        ) == all_entries(entries).push(Err(LogError::ChecksumMismatch)),
{
    let payloads = payloads_of(entries);
    assert forall|i: int| 0 <= i < payloads.len() implies (#[trigger] payloads[i]).len()
        < 0x1_0000_0000 by {
        assert(is_readable(entries[i]));
    }
    law_corruption_is_detected(payloads, buf, changed, after);
    let rest = seq![Err::<Seq<u8>, LogError>(LogError::ChecksumMismatch)];
    lemma_entries_of(entries, rest);
    assert(read_all(payloads).push(Err(LogError::ChecksumMismatch)) =~= read_all(payloads) + rest);
    assert(rest[0] == Err::<Seq<u8>, LogError>(LogError::ChecksumMismatch));
    assert(all_entries(entries) + entries_of(rest) =~= all_entries(entries).push(
        Err(LogError::ChecksumMismatch),
    ));
}

} // verus!
