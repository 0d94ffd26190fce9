//! Zstd compression of chunks.
use crate::bytes::copy_range;
use vstd::prelude::*;

verus! {

/// The zstd frame that compressing `data` at `level` gives, if it succeeds.
pub uninterp spec fn zstd_encoded(data: Seq<u8>, level: i32) -> Option<Seq<u8>>;

/// What decompressing a sequence of zstd frames gives, if it is one.
pub uninterp spec fn zstd_decoded(frames: Seq<u8>) -> Option<Seq<u8>>;

/// The length of the zstd frame that `bytes` starts with, if it starts with one.
pub uninterp spec fn zstd_frame_len(bytes: Seq<u8>) -> Option<nat>;

/// Whether `frame` stays the first frame of every longer byte string that starts with it.
pub open spec fn is_whole_frame(frame: Seq<u8>) -> bool {
    forall|tail: Seq<u8>| #[trigger] zstd_frame_len(frame + tail) == Some(frame.len())
}

/// Whether `frame` is one zstd frame that decompresses to `data`.
pub open spec fn is_frame_of(frame: Seq<u8>, data: Seq<u8>) -> bool {
    frame.len() > 0 && is_whole_frame(frame) && zstd_decoded(frame) == Some(data)
}

/// Calls `zstd::encode_all`. Its result is named `zstd_encoded`; what it gives is one frame,
/// followed by nothing, that decompresses to the data. Nothing is claimed of the text of an error.
#[verifier::external_body]
pub(crate) fn zstd_encode(data: &[u8], level: i32) -> (r: Result<Vec<u8>, String>)
    ensures
        r is Ok == zstd_encoded(data@, level) is Some,
        r is Ok ==> r.unwrap()@ == zstd_encoded(data@, level).unwrap(),
        r is Ok ==> is_frame_of(r.unwrap()@, data@),
{
    zstd::encode_all(data, level).map_err(|e| e.to_string())
}

/// Calls `zstd::decode_all`. Its result is named `zstd_decoded`. Nothing is claimed of the text of
/// an error.
#[verifier::external_body]
fn zstd_decode(data: &[u8]) -> (r: Result<Vec<u8>, String>)
    ensures
        r is Ok == zstd_decoded(data@) is Some,
        r is Ok ==> r.unwrap()@ == zstd_decoded(data@).unwrap(),
{
    zstd::decode_all(data).map_err(|e| e.to_string())
}

/// Calls `zstd::zstd_safe::find_frame_compressed_size`. Its result is named `zstd_frame_len`; a
/// frame is no longer than the bytes that it was found in.
#[verifier::external_body]
fn frame_len(data: &[u8]) -> (r: Option<usize>)
    ensures
        r is Some == zstd_frame_len(data@) is Some,
        r is Some ==> r.unwrap() == zstd_frame_len(data@).unwrap(),
        r is Some ==> r.unwrap() <= data@.len(),
{
    zstd::zstd_safe::find_frame_compressed_size(data).ok()
}

/// What decompressing the first frame of `bytes` gives, if it starts with a frame.
pub open spec fn first_frame_decoded(bytes: Seq<u8>) -> Option<Seq<u8>> {
    match zstd_frame_len(bytes) {
        Some(n) => zstd_decoded(bytes.take(n as int)),
        None => None,
    }
}

/// Decompress the first frame of `bytes`, whatever padding follows it.
pub fn decode_first_frame(bytes: &[u8]) -> (r: Result<Vec<u8>, String>)
    ensures
        r is Ok <==> first_frame_decoded(bytes@) is Some,
        r matches Ok(d) ==> d@ == first_frame_decoded(bytes@).unwrap(),
        // Padding behind a frame does no harm.
        forall|frame: Seq<u8>, data: Seq<u8>| #[trigger]
            is_frame_of(frame, data) && frame.is_prefix_of(bytes@) ==> r is Ok && r.unwrap()@
                == data,
{
    proof {
        assert forall|frame: Seq<u8>, data: Seq<u8>| #[trigger]
            is_frame_of(frame, data) && frame.is_prefix_of(bytes@) implies first_frame_decoded(
            bytes@,
        ) == Some(data) by {
            let tail = bytes@.skip(frame.len() as int);
            assert(frame + tail =~= bytes@);
            assert(zstd_frame_len(frame + tail) == Some(frame.len()));
            assert(bytes@.take(frame.len() as int) =~= frame);
        }
    }
    match frame_len(bytes) {
        Some(n) => {
            let frame = copy_range(bytes, 0, n);
            assert(frame@ =~= bytes@.take(n as int));
            zstd_decode(frame.as_slice())
        },
        None => Err("Unknown frame descriptor".to_owned()),
    }
}

} // verus!
