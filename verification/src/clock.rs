//! The time of day.
use vstd::prelude::*;

verus! {

use vstd::utf8::encode_utf8;

/// `chrono::Utc::now` and then `chrono::DateTime::to_rfc3339`: the time of the call as an RFC 3339
/// text in UTC. The text depends on the clock; all that is claimed of it is that it is short.
#[verifier::external_body]
pub(crate) fn current_time() -> (r: String)
    ensures
        encode_utf8(r@).len() <= 64,
{
    chrono::Utc::now().to_rfc3339()
}

} // verus!
