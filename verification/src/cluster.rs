//! Cluster ids: each disk carries a UUID identifying its slot in the pool.
use crate::errors::{StorageError, StorageResult};
use crate::text::{join2, join3, trim};
use vstd::prelude::*;

verus! {

use crate::text::{hex, hex_char, is_white, trimmed, trimmed_end, trimmed_start, zero_padded};

/// Name of the file that holds the cluster id of a disk.
pub const CLUSTER_ID_FILENAME: &'static str = ".cluster_id";

/// What reading a text as a UUID gives.
pub uninterp spec fn uuid_parsed(text: Seq<char>) -> Option<u128>;

/// The hyphenated lower-case text of a UUID.
pub open spec fn uuid_text(id: u128) -> Seq<char> {
    let digits = zero_padded(hex(id as nat), 32);
    digits.subrange(0, 8) + "-"@ + digits.subrange(8, 12) + "-"@ + digits.subrange(12, 16) + "-"@
        + digits.subrange(16, 20) + "-"@ + digits.subrange(20, 32)
}

/// Calls `uuid::Uuid::parse_str` and hands out the UUID as its number. The result is named
/// `uuid_parsed`; the hyphenated text of a UUID is read as that UUID. Nothing is claimed of the
/// text of an error.
#[verifier::external_body]
fn parse_uuid(text: &str) -> (r: Result<u128, String>)
    ensures
        r is Ok == uuid_parsed(text@) is Some,
        r is Ok ==> r.unwrap() == uuid_parsed(text@).unwrap(),
        forall|id: u128| text@ == #[trigger] uuid_text(id) ==> r is Ok && r.unwrap() == id,
{
    uuid::Uuid::parse_str(text).map(|u| u.as_u128()).map_err(|e| e.to_string())
}

/// Calls `to_string` on the `uuid::Uuid` with the given number: its hyphenated text.
#[verifier::external_body]
fn format_uuid(id: u128) -> (r: String)
    ensures
        r@ == uuid_text(id),
{
    uuid::Uuid::from_u128(id).to_string()
}

/// Whether a number is that of a random UUID: the version in bits 76 to 79 is 4, and the variant in
/// bits 62 and 63 is the standard one.
pub open spec fn is_random_uuid(id: u128) -> bool {
    id as nat / 0x1000_0000_0000_0000_0000 % 16 == 4 && id as nat / 0x4000_0000_0000_0000 % 4 == 2
}

/// Calls `uuid::Uuid::new_v4`. The number has the version and the variant of a random UUID; the
/// other bits are random, and nothing is claimed of them.
#[verifier::external_body]
pub(crate) fn random_uuid() -> (r: u128)
    ensures
        is_random_uuid(r),
{
    uuid::Uuid::new_v4().as_u128()
}

/// A cluster id is a UUID stored on each disk, held as its 128-bit number.
#[derive(Debug, Clone, Copy, PartialEq, Eq, Structural, Hash)]
pub struct ClusterId(pub u128);

/// What a disk's cluster id becomes when the disk is taken into use.
#[derive(Debug, Clone, Copy, PartialEq, Eq, Structural)]
pub struct ClusterIdChoice {
    /// The cluster id of the disk.
    pub id: ClusterId,
    /// Whether the id has to be written to the disk.
    pub write: bool,
}

impl ClusterId {
    /// Generate a new random cluster id. Its version and variant are those of a random UUID; which
    /// id it is depends on chance.
    pub fn generate() -> (r: Self)
        ensures
            is_random_uuid(r.0),
    {
        ClusterId(random_uuid())
    }

    /// The text of this id.
    pub fn text(&self) -> (r: String)
        ensures
            r@ == uuid_text(self.0),
    {
        format_uuid(self.0)
    }

    /// Read an id from its text.
    pub fn parse(text: &str) -> (r: Result<Self, String>)
        ensures
            r is Ok <==> uuid_parsed(text@) is Some,
            r matches Ok(id) ==> id.0 == uuid_parsed(text@).unwrap(),
            forall|id: u128| text@ == #[trigger] uuid_text(id) ==> r is Ok && r.unwrap().0 == id,
    {
        match parse_uuid(text) {
            Ok(n) => Ok(ClusterId(n)),
            Err(e) => Err(e),
        }
    }

    /// Read the cluster id from the contents of a disk's id file. There is no id if there is no
    /// file.
    pub fn read_from(contents: Option<&str>, disk_path: &str) -> (r: StorageResult<Option<Self>>)
        ensures
            contents is None ==> r is Ok && r.unwrap() is None,
            contents matches Some(text) ==> (r is Ok <==> uuid_parsed(trimmed(text@)) is Some),
            contents matches Some(text) ==> (r matches Ok(id) ==> id == Some(
                ClusterId(uuid_parsed(trimmed(text@)).unwrap()),
            )),
            r matches Err(e) ==> e matches StorageError::Transient(m) && (
            "invalid cluster ID on "@ + disk_path@ + ": "@).is_prefix_of(m@),
            // What `write_to` puts into the file is read back.
            contents matches Some(text) ==> forall|id: u128| text@ == #[trigger] uuid_text(id)
                + "\n"@ ==> r is Ok && r.unwrap() == Some(ClusterId(id)),
    {
        match contents {
            None => Ok(None),
            Some(text) => {
                let text_trimmed = trim(text);
                proof {
                    assert forall|id: u128| text@ == #[trigger] uuid_text(id) + "\n"@ implies
                        text_trimmed@ == uuid_text(id) by {
                        lemma_trim_uuid_line(id);
                    }
                }
                match ClusterId::parse(text_trimmed.as_str()) {
                    Ok(id) => Ok(Some(id)),
                    Err(e) => {
                        let mut m = join3("invalid cluster ID on ", disk_path, ": ");
                        let ghost head = m@;
                        m.append(e.as_str());
                        assert(m@.subrange(0, head.len() as int) =~= head);
                        Err(StorageError::Transient(m))
                    },
                }
            },
        }
    }

    /// The contents of the id file of a disk with this id.
    pub fn write_to(&self) -> (r: String)
        ensures
            r@ == uuid_text(self.0) + "\n"@,
    {
        join2(self.text().as_str(), "\n")
    }

    /// Validate that this id of a disk matches the expected one. Any id is accepted where none is
    /// expected.
    pub fn validate(&self, expected: &Option<Self>, disk_index: usize) -> (r: StorageResult<()>)
        ensures
            r is Ok <==> (expected matches Some(e) ==> e.0 == self.0),
            r matches Err(e) ==> is_mismatch(e, disk_index, expected.unwrap(), *self),
    {
        match expected {
            None => Ok(()),
            Some(expected_id) => {
                if self.0 == expected_id.0 {
                    Ok(())
                } else {
                    Err(
                        StorageError::ClusterIdMismatch {
                            disk_index,
                            expected: expected_id.text(),
                            actual: self.text(),
                        },
                    )
                }
            },
        }
    }
}

/// Whether `e` says that disk `index` carries `actual` where `expected` was expected.
pub open spec fn is_mismatch(
    e: StorageError,
    index: usize,
    expected: ClusterId,
    actual: ClusterId,
) -> bool {
    match e {
        StorageError::ClusterIdMismatch { disk_index, expected: x, actual: a } => disk_index
            == index && x@ == uuid_text(expected.0) && a@ == uuid_text(actual.0),
        _ => false,
    }
}

/// Choose the cluster id of a disk: the one found on it, which must be the expected one if there
/// is one; on a disk without an id the expected one, or else `fresh`, is written.
pub fn scan_disk_cluster_id(
    found: Option<ClusterId>,
    expected: &Option<ClusterId>,
    disk_index: usize,
    fresh: ClusterId,
) -> (r: StorageResult<ClusterIdChoice>)
    ensures
        r is Ok <==> !(found is Some && expected is Some && found != *expected),
        r matches Ok(choice) ==> choice == (match (found, *expected) {
            (Some(id), _) => (ClusterIdChoice { id, write: false }),
            (None, Some(id)) => (ClusterIdChoice { id, write: true }),
            (None, None) => (ClusterIdChoice { id: fresh, write: true }),
        }),
        r matches Err(e) ==> is_mismatch(e, disk_index, expected.unwrap(), found.unwrap()),
{
    match found {
        Some(actual) => match actual.validate(expected, disk_index) {
            Ok(()) => Ok(ClusterIdChoice { id: actual, write: false }),
            Err(e) => Err(e),
        },
        None => match expected {
            Some(id) => Ok(ClusterIdChoice { id: *id, write: true }),
            None => Ok(ClusterIdChoice { id: fresh, write: true }),
        },
    }
}

proof fn lemma_hex_not_white(n: nat)
    ensures
        hex(n).len() > 0,
        forall|i: int| 0 <= i < hex(n).len() ==> !is_white(#[trigger] hex(n)[i]),
    decreases n,
{
    assert forall|d: nat| d < 16 implies !is_white(#[trigger] hex_char(d)) by {}
    if n >= 16 {
        lemma_hex_not_white(n / 16);
        assert forall|i: int| 0 <= i < hex(n).len() implies !is_white(#[trigger] hex(n)[i]) by {
            if i < hex(n / 16).len() {
                assert(hex(n)[i] == hex(n / 16)[i]);
            } else {
                assert(hex(n)[i] == hex_char(n % 16));
            }
        }
    } else {
        assert(hex(n)[0] == hex_char(n));
    }
}

proof fn lemma_trim_uuid_line(id: u128)
    ensures
        trimmed(uuid_text(id) + "\n"@) == uuid_text(id),
{
    reveal_strlit("\n");
    reveal_strlit("-");
    let digits = zero_padded(hex(id as nat), 32);
    lemma_hex_not_white(id as nat);
    assert(digits.len() >= 32);
    assert(!is_white('0'));
    assert(forall|i: int| 0 <= i < digits.len() ==> !is_white(#[trigger] digits[i]));
    let text = uuid_text(id);
    assert(text.len() == 36);
    assert(text[0] == digits[0]);
    assert(text.last() == digits[31]);
    let line = text + "\n"@;
    assert(line[0] == text[0]);
    assert(trimmed_start(line) == line);
    assert(line.drop_last() =~= text);
    assert(is_white(line.last()));
    assert(trimmed_end(line) == trimmed_end(text));
    assert(trimmed_end(text) == text);
}

} // verus!
