//! A storage engine that keeps each object in full on every disk, with a write-ahead log per disk.
//!
//! The functions here decide and plan; directories, files and logs are read and written around
//! them.
use crate::cluster::random_uuid;
use crate::in_flight::InFlight;
use crate::key_paths::{components, join_path, unclean_key};
use crate::text::{
    decimal_string, ends_with, join2, join3, owned, parse_u64, same_text, text_up_to,
};
use crate::transaction_log::{LogEntry, WalState};
use vstd::prelude::*;

verus! {

use crate::cluster::is_random_uuid;
use crate::metadata::{law_decimal_is_read_back, lemma_decimal_digits};
use crate::key_paths::{components_of, pushed, unclean_key_of, views};
use crate::text::{decimal, parsed};

/// The fewest disks that an engine can have.
pub const MIN_DISKS: usize = 3;

/// The file that marks the directory of an object.
pub const MARKER_FILENAME: &'static str = "yote.marker";

/// What the name of a deletion mark ends with.
pub const DELETE_SUFFIX: &'static str = ".deleted";

/// The name of the log on each disk.
pub const WAL_FILENAME: &'static str = "wal";

/// The name of the configuration file on each disk.
pub const CONFIG_FILENAME: &'static str = "config.toml";

/// The number of a transaction.
pub type TxnId = u64;

/// What is on record on each disk.
#[derive(Debug)]
pub struct DiskConfig {
    pub uuid: u128,
    pub pack: Vec<u128>,
    pub generation: u32,
}

/// A disk of the engine.
#[derive(Debug)]
pub struct Disk {
    pub path: String,
    pub uuid: u128,
    /// The disks that belong together, in order.
    pub pack: Vec<u128>,
}

impl Disk {
    /// A new disk, with what is put on record on it.
    pub fn create(path: String, uuid: u128, pack: Vec<u128>) -> (r: (Disk, DiskConfig))
        ensures
            r.0.path@ == path@,
            r.0.uuid == uuid,
            r.0.pack@ == pack@,
            r.1.uuid == uuid,
            r.1.pack@ == pack@,
            r.1.generation == 0,
    {
        let config = DiskConfig { uuid, pack: pack.clone(), generation: 0 };
        assert(config.pack@ =~= pack@);
        (Disk { path, uuid, pack }, config)
    }

    /// The disk that a record describes.
    pub fn load(path: String, config: DiskConfig) -> (r: Disk)
        ensures
            r.path@ == path@,
            r.uuid == config.uuid,
            r.pack@ == config.pack@,
    {
        Disk { path, uuid: config.uuid, pack: config.pack }
    }

    /// The directory of the files that are being written.
    pub fn get_wip_root(&self) -> (r: String)
        ensures
            r@ == pushed(self.path@, "wip"@),
    {
        join_path(self.path.as_str(), "wip")
    }

    /// The file that a transaction writes.
    pub fn get_wip_path(&self, txnid: TxnId) -> (r: String)
        ensures
            r@ == pushed(pushed(self.path@, "wip"@), decimal(txnid as nat)),
    {
        join_path(self.get_wip_root().as_str(), decimal_string(txnid as u128).as_str())
    }

    /// The directory of the objects.
    pub fn get_object_root(&self) -> (r: String)
        ensures
            r@ == pushed(self.path@, "objects"@),
    {
        join_path(self.path.as_str(), "objects")
    }

    /// The directory of an object.
    pub fn get_object_path(&self, key: &str) -> (r: String)
        ensures
            r@ == pushed(pushed(self.path@, "objects"@), key@),
    {
        join_path(self.get_object_root().as_str(), key)
    }
}

/// What the highest transaction of a key left.
#[derive(Debug)]
pub enum KeyMatch {
    /// An object, in the file of this name.
    Object(String),
    /// A deletion mark.
    Deleted,
}

/// A file name without the deletion marks at its end.
pub open spec fn unmarked(name: Seq<char>) -> Seq<char>
    decreases name.len(),
{
    if DELETE_SUFFIX@.len() > 0 && DELETE_SUFFIX@.is_suffix_of(name) {
        unmarked(name.take(name.len() - DELETE_SUFFIX@.len()))
    } else {
        name
    }
}

/// A file name without the deletion marks at its end.
pub fn without_marks(name: &str) -> (r: String)
    ensures
        r@ == unmarked(name@),
{
    proof {
        reveal_strlit(".deleted");
    }
    let mut r: String = owned(name);
    while ends_with(r.as_str(), DELETE_SUFFIX)
        invariant
            unmarked(r@) == unmarked(name@),
            DELETE_SUFFIX@.len() == 8,
        decreases r@.len(),
    {
        let n: usize = r.as_str().unicode_len() - 8;
        r = text_up_to(r.as_str(), n);
    }
    r
}

/// The transaction that a file name stands for, if any.
pub open spec fn txn_of(name: Seq<char>) -> Option<u64> {
    parsed(unmarked(name), 10)
}

/// What a file with this name is.
pub open spec fn is_match_of(m: KeyMatch, name: Seq<char>) -> bool {
    if unmarked(name).len() < name.len() {
        m is Deleted
    } else {
        m matches KeyMatch::Object(n) && n@ == name
    }
}

/// The message for a file name that is no text.
pub open spec fn bad_name(text: Seq<char>) -> Seq<char> {
    "Invalid UTF-8 in transaction ID: "@ + text
}

/// A disk is in the pack of all disks: the numbers of the disks, in order.
pub open spec fn is_pack(uuids: Seq<u128>, pack: Seq<u128>) -> bool {
    in_order(pack) && pack.to_multiset() == uuids.to_multiset()
}

/// Whether numbers stand in order.
pub open spec fn in_order(v: Seq<u128>) -> bool {
    forall|i: int, j: int| 0 <= i <= j < v.len() ==> v[i] <= v[j]
}

/// Numbers in order.
pub fn sorted(v: &[u128]) -> (r: Vec<u128>)
    ensures
        is_pack(v@, r@),
        r@.len() == v@.len(),
{
    let mut r: Vec<u128> = Vec::new();
    let mut i: usize = 0;
    assert(v@.take(0) =~= Seq::empty());
    while i < v.len()
        invariant
            i <= v@.len(),
            r@.len() == i,
            in_order(r@),
            r@.to_multiset() == v@.take(i as int).to_multiset(),
        decreases v.len() - i,
    {
        let ghost before = r@;
        let mut at: usize = 0;
        while at < r.len() && r[at] <= v[i]
            invariant
                i < v@.len(),
                at <= r@.len(),
                r@ == before,
                forall|j: int| 0 <= j < at ==> r@[j] <= v@[i as int],
            decreases r.len() - at,
        {
            at += 1;
        }
        r.insert(at, v[i]);
        proof {
            assert(r@ == before.insert(at as int, v@[i as int]));
            assert forall|a: int, b: int| 0 <= a <= b < r@.len() implies r@[a] <= r@[b] by {
                let x = if a < at {
                    a
                } else {
                    a - 1
                };
                let y = if b < at {
                    b
                } else {
                    b - 1
                };
                if a != at && b != at {
                    assert(before[x] <= before[y]);
                } else if a == at && b > at {
                    assert(before[at as int] <= before[y]);
                }
            }
            broadcast use vstd::seq_lib::group_to_multiset_ensures;

            before.insert_ensures(at as int, v@[i as int]);
            assert(v@.take(i + 1) =~= v@.take(i as int).push(v@[i as int]));
        }
        i += 1;
    }
    assert(v@.take(v@.len() as int) =~= v@);
    r
}

/// The storage engine.
pub struct StorageEngine {
    pub disks: Vec<Disk>,
    /// The number of the next transaction.
    pub txn_counter: TxnId,
    /// The transactions that are under way.
    pub uncommitted: InFlight,
}

/// Why an engine cannot be made of so many disks with so many data and parity shards.
pub open spec fn create_defect(disks: nat, data: nat, parity: nat) -> Option<Seq<char>> {
    if disks < MIN_DISKS {
        Some("At least 3 disks must be provisioned"@)
    } else if data < 1 || parity < 1 {
        Some("At least 1 data shard and 1 parity shard required"@)
    } else if disks < data + parity {
        Some("Not enough disks for shard configuration"@)
    } else if data <= parity {
        Some("Need more data shards than parity shards"@)
    } else {
        None
    }
}

/// Check the number of disks, data shards and parity shards of an engine.
pub fn check_create(disks: usize, shards: (usize, usize)) -> (r: Result<(), String>)
    ensures
        r is Ok <==> create_defect(disks as nat, shards.0 as nat, shards.1 as nat) is None,
        r matches Err(m) ==> create_defect(disks as nat, shards.0 as nat, shards.1 as nat) == Some(
            m@,
        ),
{
    if disks < MIN_DISKS {
        return Err(owned("At least 3 disks must be provisioned"));
    }
    if shards.0 < 1 || shards.1 < 1 {
        return Err(owned("At least 1 data shard and 1 parity shard required"));
    }
    if (disks as u128) < shards.0 as u128 + shards.1 as u128 {
        return Err(owned("Not enough disks for shard configuration"));
    }
    if shards.0 <= shards.1 {
        return Err(owned("Need more data shards than parity shards"));
    }
    Ok(())
}

/// Whether the transaction of entry `i` in the log of disk `d` is `txnid`.
pub open spec fn is_entry_of(wals: Seq<Vec<LogEntry>>, d: int, i: int, txnid: TxnId) -> bool {
    0 <= d < wals.len() && 0 <= i < wals[d]@.len() && wals[d]@[i].txid == txnid
}

/// Whether a log has an entry of a transaction.
pub open spec fn is_logged(wals: Seq<Vec<LogEntry>>, txnid: TxnId) -> bool {
    exists|d: int, i: int| #[trigger] is_entry_of(wals, d, i, txnid)
}

/// Whether a log of a disk with the number `uuid` has a transaction as committed.
pub open spec fn is_committed_on(
    disks: Seq<Disk>,
    wals: Seq<Vec<LogEntry>>,
    txnid: TxnId,
    uuid: u128,
) -> bool {
    exists|d: int, i: int| #[trigger]
        is_entry_of(wals, d, i, txnid) && disks[d].uuid == uuid && wals[d]@[i].state
            == WalState::Committed
}

/// Whether every disk has a transaction as committed.
pub open spec fn is_complete(disks: Seq<Disk>, wals: Seq<Vec<LogEntry>>, txnid: TxnId) -> bool {
    forall|d: int|
        0 <= d < disks.len() ==> is_committed_on(disks, wals, txnid, (#[trigger] disks[d]).uuid)
}

/// Whether all entries of each transaction have the same key, as a path.
pub open spec fn keys_agree(wals: Seq<Vec<LogEntry>>) -> bool {
    forall|d: int, i: int, e: int, j: int, txnid: TxnId| #[trigger]
        is_entry_of(wals, d, i, txnid) && #[trigger] is_entry_of(wals, e, j, txnid)
            ==> components_of(wals[d]@[i].key@) == components_of(wals[e]@[j].key@)
}

/// A transaction that is found in the logs.
struct TransactionRecord {
    txnid: TxnId,
    key: String,
    committed: Vec<u128>,
}

/// A transaction whose files are removed.
#[derive(Debug)]
pub struct Abort {
    pub txnid: TxnId,
    pub key: String,
}

/// What is known of transactions: the key of each, and the disks that have it as committed.
type Transactions = Map<TxnId, (Seq<char>, Set<u128>)>;

/// Whether the records hold what is known, one for each transaction.
spec fn represents(records: Seq<TransactionRecord>, m: Transactions) -> bool {
    &&& forall|a: int, b: int|
        0 <= a < b < records.len() ==> (#[trigger] records[a]).txnid != (
        #[trigger] records[b]).txnid
    &&& forall|a: int|
        0 <= a < records.len() ==> m.contains_key((#[trigger] records[a]).txnid)
            && m[records[a].txnid] == (records[a].key@, records[a].committed@.to_set())
    &&& forall|t: TxnId| #[trigger]
        m.contains_key(t) ==> exists|a: int|
            0 <= a < records.len() && (#[trigger] records[a]).txnid == t
}

/// What is known after one more entry.
spec fn noted(m: Transactions, uuid: u128, e: LogEntry) -> Transactions {
    let (key, committed) = if m.contains_key(e.txid) {
        m[e.txid]
    } else {
        (e.key@, Set::empty())
    };
    m.insert(
        e.txid,
        (
            key,
            if e.state == WalState::Committed {
                committed.insert(uuid)
            } else {
                committed
            },
        ),
    )
}

/// Whether an entry stands before entry `ii` in the log of disk `dd`, or in the log of an earlier
/// disk.
spec fn is_before(d: int, i: int, dd: int, ii: int) -> bool {
    d < dd || (d == dd && i < ii)
}

/// Whether an entry of a transaction stands before entry `ii` of disk `dd`.
spec fn is_seen(wals: Seq<Vec<LogEntry>>, d: int, i: int, t: TxnId, dd: int, ii: int) -> bool {
    is_entry_of(wals, d, i, t) && is_before(d, i, dd, ii)
}

/// Whether `m` is what the entries before entry `ii` of disk `dd` say.
#[verifier::opaque]
spec fn reconciled(
    disks: Seq<Disk>,
    wals: Seq<Vec<LogEntry>>,
    dd: int,
    ii: int,
    m: Transactions,
) -> bool {
    &&& forall|d: int, i: int, t: TxnId| #[trigger]
        is_seen(wals, d, i, t, dd, ii) ==> m.contains_key(t) && components_of(m[t].0)
            == components_of(wals[d]@[i].key@) && (wals[d]@[i].state == WalState::Committed
            ==> m[t].1.contains(disks[d].uuid))
    &&& forall|t: TxnId| #[trigger]
        m.contains_key(t) ==> exists|d: int, i: int| #[trigger]
            is_seen(wals, d, i, t, dd, ii) && wals[d]@[i].key@ == m[t].0
    &&& forall|t: TxnId, u: u128|
        m.contains_key(t) && #[trigger] m[t].1.contains(u) ==> exists|d: int, i: int| #[trigger]
            is_seen(wals, d, i, t, dd, ii) && disks[d].uuid == u && wals[d]@[i].state
                == WalState::Committed
}

proof fn lemma_noted(
    disks: Seq<Disk>,
    wals: Seq<Vec<LogEntry>>,
    dd: int,
    ii: int,
    m: Transactions,
)
    requires
        0 <= dd < wals.len(),
        0 <= ii < wals[dd]@.len(),
        reconciled(disks, wals, dd, ii, m),
        m.contains_key(wals[dd]@[ii].txid) ==> components_of(m[wals[dd]@[ii].txid].0)
            == components_of(wals[dd]@[ii].key@),
    ensures
        reconciled(disks, wals, dd, ii + 1, noted(m, disks[dd].uuid, wals[dd]@[ii])),
{
    reveal(reconciled);
    let e = wals[dd]@[ii];
    let next = noted(m, disks[dd].uuid, e);
    assert forall|d: int, i: int, t: TxnId| #[trigger]
        is_seen(wals, d, i, t, dd, ii + 1) implies next.contains_key(t) && components_of(next[t].0)
        == components_of(wals[d]@[i].key@) && (wals[d]@[i].state == WalState::Committed
        ==> next[t].1.contains(disks[d].uuid)) by {
        if !(d == dd && i == ii) {
            assert(is_seen(wals, d, i, t, dd, ii));
        }
    }
    assert forall|t: TxnId| #[trigger] next.contains_key(t) implies exists|d: int, i: int| #[trigger]
        is_seen(wals, d, i, t, dd, ii + 1) && wals[d]@[i].key@ == next[t].0 by {
        if m.contains_key(t) {
            let (d, i) = choose|d: int, i: int| #[trigger]
                is_seen(wals, d, i, t, dd, ii) && wals[d]@[i].key@ == m[t].0;
            assert(is_seen(wals, d, i, t, dd, ii + 1));
        } else {
            assert(is_seen(wals, dd, ii, t, dd, ii + 1));
        }
    }
    assert forall|t: TxnId, u: u128|
        next.contains_key(t) && #[trigger] next[t].1.contains(u) implies exists|d: int, i: int|
        #[trigger] is_seen(wals, d, i, t, dd, ii + 1) && disks[d].uuid == u && wals[d]@[i].state
            == WalState::Committed by {
        if m.contains_key(t) && m[t].1.contains(u) {
            let (d, i) = choose|d: int, i: int| #[trigger]
                is_seen(wals, d, i, t, dd, ii) && disks[d].uuid == u && wals[d]@[i].state
                    == WalState::Committed;
            assert(is_seen(wals, d, i, t, dd, ii + 1));
        } else {
            assert(is_seen(wals, dd, ii, t, dd, ii + 1));
        }
    }
}

/// The end of one log is the start of the next.
proof fn lemma_next_log(disks: Seq<Disk>, wals: Seq<Vec<LogEntry>>, dd: int, m: Transactions)
    requires
        0 <= dd < wals.len(),
        reconciled(disks, wals, dd, wals[dd]@.len() as int, m),
    ensures
        reconciled(disks, wals, dd + 1, 0, m),
{
    reveal(reconciled);
    let n = wals[dd]@.len() as int;
    assert forall|d: int, i: int, t: TxnId| #[trigger] is_seen(wals, d, i, t, dd + 1, 0) implies
        is_seen(wals, d, i, t, dd, n) by {}
    assert forall|d: int, i: int, t: TxnId| #[trigger] is_seen(wals, d, i, t, dd, n) implies
        is_seen(wals, d, i, t, dd + 1, 0) by {}
    assert forall|t: TxnId| #[trigger] m.contains_key(t) implies exists|d: int, i: int| #[trigger]
        is_seen(wals, d, i, t, dd + 1, 0) && wals[d]@[i].key@ == m[t].0 by {
        let (d, i) = choose|d: int, i: int| #[trigger]
            is_seen(wals, d, i, t, dd, n) && wals[d]@[i].key@ == m[t].0;
        assert(is_seen(wals, d, i, t, dd + 1, 0));
    }
    assert forall|t: TxnId, u: u128|
        m.contains_key(t) && #[trigger] m[t].1.contains(u) implies exists|d: int, i: int| #[trigger]
        is_seen(wals, d, i, t, dd + 1, 0) && disks[d].uuid == u && wals[d]@[i].state
            == WalState::Committed by {
        let (d, i) = choose|d: int, i: int| #[trigger]
            is_seen(wals, d, i, t, dd, n) && disks[d].uuid == u && wals[d]@[i].state
                == WalState::Committed;
        assert(is_seen(wals, d, i, t, dd + 1, 0));
    }
}

/// Whether two texts are the same path.
pub fn same_path(a: &str, b: &str) -> (r: bool)
    ensures
        r == (components_of(a@) == components_of(b@)),
{
    let x = components(a);
    let y = components(b);
    if x.len() != y.len() {
        assert(views(x@).len() != views(y@).len());
        return false;
    }
    let mut i: usize = 0;
    while i < x.len()
        invariant
            i <= x@.len() == y@.len(),
            views(x@) == components_of(a@),
            views(y@) == components_of(b@),
            forall|j: int| 0 <= j < i ==> views(x@)[j] == views(y@)[j],
        decreases x.len() - i,
    {
        if !same_text(x[i].as_str(), y[i].as_str()) {
            assert(views(x@)[i as int] != views(y@)[i as int]);
            return false;
        }
        i += 1;
    }
    assert(views(x@) =~= views(y@));
    true
}

fn has_number(v: &[u128], n: u128) -> (r: bool)
    ensures
        r == v@.contains(n),
{
    let mut i: usize = 0;
    while i < v.len()
        invariant
            i <= v@.len(),
            forall|j: int| 0 <= j < i ==> v@[j] != n,
        decreases v.len() - i,
    {
        if v[i] == n {
            return true;
        }
        i += 1;
    }
    false
}

/// The message for a transaction with different keys.
pub open spec fn conflict_text(txnid: TxnId, expected: Seq<char>, got: Seq<char>) -> Seq<char> {
    "txnid "@ + decimal(txnid as nat) + " has inconsistent keys across disks: expected "@ + expected
        + ", got "@ + got
}

/// Take one more entry into the records.
fn note_entry(
    records: &mut Vec<TransactionRecord>,
    uuid: u128,
    e: &LogEntry,
    Ghost(m): Ghost<Transactions>,
) -> (r: Result<(), String>)
    requires
        represents(old(records)@, m),
    ensures
        r is Ok <==> (m.contains_key(e.txid) ==> components_of(m[e.txid].0) == components_of(
            e.key@,
        )),
        r is Ok ==> represents(final(records)@, noted(m, uuid, *e)),
        r matches Err(t) ==> t@ == conflict_text(e.txid, m[e.txid].0, e.key@),
{
    let ghost before = records@;
    let ghost next = noted(m, uuid, *e);
    let committed: bool = e.state == WalState::Committed;
    let mut a: usize = 0;
    while a < records.len()
        invariant
            a <= records@.len(),
            records@ == before,
            represents(before, m),
            forall|b: int| 0 <= b < a ==> (#[trigger] before[b]).txnid != e.txid,
            next == noted(m, uuid, *e),
            committed == (e.state == WalState::Committed),
        decreases records.len() - a,
    {
        if records[a].txnid == e.txid {
            assert(m.contains_key(before[a as int].txnid));
            if !same_path(records[a].key.as_str(), e.key.as_str()) {
                let mut t = join3(
                    "txnid ",
                    decimal_string(e.txid as u128).as_str(),
                    " has inconsistent keys across disks: expected ",
                );
                t.append(records[a].key.as_str());
                t.append(", got ");
                t.append(e.key.as_str());
                return Err(t);
            }
            if committed {
                let mut list: Vec<u128> = records[a].committed.clone();
                assert(list@ =~= before[a as int].committed@);
                list.push(uuid);
                let key = records[a].key.clone();
                let ghost old_list = before[a as int].committed@;
                assert(list@ =~= old_list.push(uuid));
                records.set(a, TransactionRecord { txnid: e.txid, key, committed: list });
                proof {
                    lemma_push_to_set(old_list, uuid);
                    assert forall|b: int| 0 <= b < records@.len() implies next.contains_key(
                        (#[trigger] records@[b]).txnid,
                    ) && next[records@[b].txnid] == (
                        records@[b].key@,
                        records@[b].committed@.to_set(),
                    ) by {
                        if b != a {
                            assert(records@[b] == before[b]);
                        }
                    }
                    assert forall|x: int, y: int| 0 <= x < y < records@.len() implies (
                    #[trigger] records@[x]).txnid != (#[trigger] records@[y]).txnid by {
                        assert(before[x].txnid != before[y].txnid);
                    }
                    assert forall|t: TxnId| #[trigger] next.contains_key(t) implies exists|b: int|
                        0 <= b < records@.len() && (#[trigger] records@[b]).txnid == t by {
                        assert(m.contains_key(t));
                        let b = choose|b: int|
                            0 <= b < before.len() && (#[trigger] before[b]).txnid == t;
                        assert(records@[b].txnid == t);
                    }
                }
            } else {
                assert(next =~= m);
            }
            return Ok(());
        }
        a += 1;
    }
    proof {
        if m.contains_key(e.txid) {
            let b = choose|b: int|
                0 <= b < before.len() && (#[trigger] before[b]).txnid == e.txid;
            assert(false);
        }
    }
    let mut list: Vec<u128> = Vec::new();
    if committed {
        list.push(uuid);
    }
    proof {
        if committed {
            lemma_push_to_set(Seq::empty(), uuid);
            assert(list@ =~= Seq::<u128>::empty().push(uuid));
        }
        assert(Seq::<u128>::empty().to_set() =~= Set::empty());
        assert(list@.to_set() =~= if committed {
            Set::<u128>::empty().insert(uuid)
        } else {
            Set::<u128>::empty()
        });
    }
    records.push(TransactionRecord { txnid: e.txid, key: e.key.clone(), committed: list });
    proof {
        assert forall|b: int| 0 <= b < records@.len() implies next.contains_key(
            (#[trigger] records@[b]).txnid,
        ) && next[records@[b].txnid] == (records@[b].key@, records@[b].committed@.to_set()) by {
            if b < before.len() {
                assert(records@[b] == before[b]);
            }
        }
        assert forall|x: int, y: int| 0 <= x < y < records@.len() implies (
        #[trigger] records@[x]).txnid != (#[trigger] records@[y]).txnid by {
            assert(records@[x] == before[x]);
            if y < before.len() {
                assert(records@[y] == before[y]);
            }
        }
        assert forall|t: TxnId| #[trigger] next.contains_key(t) implies exists|b: int|
            0 <= b < records@.len() && (#[trigger] records@[b]).txnid == t by {
            if m.contains_key(t) {
                let b = choose|b: int| 0 <= b < before.len() && (#[trigger] before[b]).txnid == t;
                assert(records@[b].txnid == t);
            } else {
                assert(records@[before.len() as int].txnid == t);
            }
        }
    }
    Ok(())
}

proof fn lemma_push_to_set(v: Seq<u128>, n: u128)
    ensures
        v.push(n).to_set() == v.to_set().insert(n),
{
    let w = v.push(n);
    assert forall|x: u128| #[trigger] w.to_set().contains(x) <==> v.to_set().insert(n).contains(
        x,
    ) by {
        if v.contains(x) {
            let i = choose|i: int| 0 <= i < v.len() && v[i] == x;
            assert(w[i] == x);
        }
        if x == n {
            assert(w[v.len() as int] == n);
        }
        if w.contains(x) {
            let i = choose|i: int| 0 <= i < w.len() && w[i] == x;
            if i < v.len() {
                assert(v[i] == x);
            }
        }
    }
    assert(w.to_set() =~= v.to_set().insert(n));
}

/// Why the logs cannot be used: a transaction with different keys, or no number left for the next
/// transaction.
pub open spec fn is_log_defect(wals: Seq<Vec<LogEntry>>, text: Seq<char>) -> bool {
    ||| exists|d: int, i: int, e: int, j: int, t: TxnId|
        #![trigger is_entry_of(wals, d, i, t), is_entry_of(wals, e, j, t)]
        is_entry_of(wals, d, i, t) && is_entry_of(wals, e, j, t) && components_of(
            wals[d]@[i].key@,
        ) != components_of(wals[e]@[j].key@) && text == conflict_text(
            t,
            wals[d]@[i].key@,
            wals[e]@[j].key@,
        )
    ||| is_logged(wals, TxnId::MAX) && keys_agree(wals) && text == "no transaction number left"@
}

/// Read the logs of all disks.
fn read_logs(disks: &[Disk], wals: &[Vec<LogEntry>]) -> (r: Result<
    (Vec<TransactionRecord>, Ghost<Transactions>),
    String,
>)
    requires
        disks@.len() == wals@.len(),
    ensures
        r is Ok <==> keys_agree(wals@),
        r matches Ok((records, m)) ==> represents(records@, m@) && reconciled(
            disks@,
            wals@,
            wals@.len() as int,
            0,
            m@,
        ),
        r matches Err(t) ==> is_log_defect(wals@, t@),
{
    let mut records: Vec<TransactionRecord> = Vec::new();
    let ghost mut m: Transactions = Map::empty();
    let mut dd: usize = 0;
    assert(reconciled(disks@, wals@, 0, 0, m)) by {
        reveal(reconciled);
    }
    while dd < wals.len()
        invariant
            dd <= wals@.len() == disks@.len(),
            represents(records@, m),
            reconciled(disks@, wals@, dd as int, 0, m),
        decreases wals.len() - dd,
    {
        let mut ii: usize = 0;
        while ii < wals[dd].len()
            invariant
                dd < wals@.len() == disks@.len(),
                ii <= wals@[dd as int]@.len(),
                represents(records@, m),
                reconciled(disks@, wals@, dd as int, ii as int, m),
            decreases wals[dd as int].len() - ii,
        {
            let entry: &LogEntry = &wals[dd][ii];
            match note_entry(&mut records, disks[dd].uuid, entry, Ghost(m)) {
                Ok(()) => {
                    proof {
                        lemma_noted(disks@, wals@, dd as int, ii as int, m);
                        m = noted(m, disks@[dd as int].uuid, wals@[dd as int]@[ii as int]);
                    }
                },
                Err(t) => {
                    proof {
                        reveal(reconciled);
                        let x = wals@[dd as int]@[ii as int].txid;
                        assert(m.contains_key(x));
                        let (d, i) = choose|d: int, i: int| #[trigger]
                            is_seen(wals@, d, i, x, dd as int, ii as int) && wals@[d]@[i].key@
                                == m[x].0;
                        assert(is_entry_of(wals@, d, i, x));
                        assert(is_entry_of(wals@, dd as int, ii as int, x));
                    }
                    return Err(t);
                },
            }
            ii += 1;
        }
        proof {
            lemma_next_log(disks@, wals@, dd as int, m);
        }
        dd += 1;
    }
    proof {
        reveal(reconciled);
        let n = wals@.len() as int;
        assert forall|d: int, i: int, e: int, j: int, t: TxnId| #[trigger]
            is_entry_of(wals@, d, i, t) && #[trigger] is_entry_of(wals@, e, j, t) implies
            components_of(wals@[d]@[i].key@) == components_of(wals@[e]@[j].key@) by {
            assert(is_seen(wals@, d, i, t, n, 0));
            assert(is_seen(wals@, e, j, t, n, 0));
        }
    }
    Ok((records, Ghost(m)))
}

/// What is known of a transaction says whether it is logged and complete.
proof fn lemma_known(disks: Seq<Disk>, wals: Seq<Vec<LogEntry>>, m: Transactions, t: TxnId)
    requires
        disks.len() == wals.len(),
        reconciled(disks, wals, wals.len() as int, 0, m),
    ensures
        m.contains_key(t) <==> is_logged(wals, t),
        m.contains_key(t) ==> (is_complete(disks, wals, t) <==> forall|d: int|
            0 <= d < disks.len() ==> m[t].1.contains((#[trigger] disks[d]).uuid)),
        m.contains_key(t) ==> exists|d: int, i: int| #[trigger]
            is_entry_of(wals, d, i, t) && wals[d]@[i].key@ == m[t].0,
{
    reveal(reconciled);
    let n = wals.len() as int;
    if is_logged(wals, t) {
        let (d, i) = choose|d: int, i: int| #[trigger] is_entry_of(wals, d, i, t);
        assert(is_seen(wals, d, i, t, n, 0));
    }
    if m.contains_key(t) {
        let (d, i) = choose|d: int, i: int| #[trigger]
            is_seen(wals, d, i, t, n, 0) && wals[d]@[i].key@ == m[t].0;
        assert(is_entry_of(wals, d, i, t));
        assert forall|u: u128| m[t].1.contains(u) <==> is_committed_on(disks, wals, t, u) by {
            if m[t].1.contains(u) {
                let (d, i) = choose|d: int, i: int| #[trigger]
                    is_seen(wals, d, i, t, n, 0) && disks[d].uuid == u && wals[d]@[i].state
                        == WalState::Committed;
                assert(is_entry_of(wals, d, i, t));
            }
            if is_committed_on(disks, wals, t, u) {
                let (d, i) = choose|d: int, i: int| #[trigger]
                    is_entry_of(wals, d, i, t) && disks[d].uuid == u && wals[d]@[i].state
                        == WalState::Committed;
                assert(is_seen(wals, d, i, t, n, 0));
            }
        }
    }
}

fn is_on_all(disks: &[Disk], committed: &[u128]) -> (r: bool)
    ensures
        r == (forall|d: int|
            0 <= d < disks@.len() ==> committed@.to_set().contains((#[trigger] disks@[d]).uuid)),
{
    let mut d: usize = 0;
    while d < disks.len()
        invariant
            d <= disks@.len(),
            forall|e: int|
                0 <= e < d ==> committed@.to_set().contains((#[trigger] disks@[e]).uuid),
        decreases disks.len() - d,
    {
        if !has_number(committed, disks[d].uuid) {
            assert(!committed@.to_set().contains(disks@[d as int].uuid));
            return false;
        }
        d += 1;
    }
    true
}

/// Whether `aborts` are the logged transactions that not every disk has as committed, each once and
/// with its key.
pub open spec fn are_aborts(
    disks: Seq<Disk>,
    wals: Seq<Vec<LogEntry>>,
    aborts: Seq<Abort>,
) -> bool {
    &&& forall|a: int, b: int|
        0 <= a < b < aborts.len() ==> (#[trigger] aborts[a]).txnid != (#[trigger] aborts[b]).txnid
    &&& forall|a: int|
        0 <= a < aborts.len() ==> !is_complete(disks, wals, (#[trigger] aborts[a]).txnid) && exists|
            d: int,
            i: int,
        | #[trigger]
            is_entry_of(wals, d, i, aborts[a].txnid) && wals[d]@[i].key@ == aborts[a].key@
    &&& forall|t: TxnId| #[trigger]
        is_logged(wals, t) && !is_complete(disks, wals, t) ==> exists|a: int|
            0 <= a < aborts.len() && (#[trigger] aborts[a]).txnid == t
}

/// Whether `abort` is a logged transaction that not every disk has as committed, with its key.
#[verifier::opaque]
spec fn is_abort(disks: Seq<Disk>, wals: Seq<Vec<LogEntry>>, abort: Abort) -> bool {
    !is_complete(disks, wals, abort.txnid) && exists|d: int, i: int| #[trigger]
        is_entry_of(wals, d, i, abort.txnid) && wals[d]@[i].key@ == abort.key@
}

/// Whether `aborts` come from the records at the places `from`, which are below `n` and in order.
spec fn come_from(
    records: Seq<TransactionRecord>,
    aborts: Seq<Abort>,
    from: Seq<int>,
    n: int,
) -> bool {
    &&& from.len() == aborts.len()
    &&& forall|x: int| 0 <= x < from.len() ==> 0 <= #[trigger] from[x] < n
    &&& forall|x: int, y: int| 0 <= x < y < from.len() ==> from[x] < from[y]
    &&& forall|x: int|
        0 <= x < aborts.len() ==> (#[trigger] aborts[x]).txnid == records[from[x]].txnid
}

/// What is known of a transaction that some disk does not have as committed makes it an abort.
proof fn lemma_abort(
    disks: Seq<Disk>,
    wals: Seq<Vec<LogEntry>>,
    m: Transactions,
    abort: Abort,
)
    requires
        disks.len() == wals.len(),
        reconciled(disks, wals, wals.len() as int, 0, m),
        m.contains_key(abort.txnid),
        m[abort.txnid].0 == abort.key@,
        !is_complete(disks, wals, abort.txnid),
    ensures
        is_abort(disks, wals, abort),
{
    reveal(is_abort);
    lemma_known(disks, wals, m, abort.txnid);
}

/// The aborts of all records are those of the logs.
proof fn lemma_aborts(
    disks: Seq<Disk>,
    wals: Seq<Vec<LogEntry>>,
    m: Transactions,
    records: Seq<TransactionRecord>,
    aborts: Seq<Abort>,
    from: Seq<int>,
    next: TxnId,
)
    requires
        disks.len() == wals.len(),
        represents(records, m),
        reconciled(disks, wals, wals.len() as int, 0, m),
        come_from(records, aborts, from, records.len() as int),
        forall|x: int| 0 <= x < aborts.len() ==> is_abort(disks, wals, #[trigger] aborts[x]),
        forall|b: int|
            0 <= b < records.len() && !is_complete(disks, wals, (#[trigger] records[b]).txnid)
                ==> from.contains(b),
        forall|b: int| 0 <= b < records.len() ==> (#[trigger] records[b]).txnid < next,
        next > 0 ==> is_logged(wals, (next - 1) as u64),
    ensures
        are_aborts(disks, wals, aborts),
        is_next(wals, next),
{
    assert forall|x: int| 0 <= x < aborts.len() implies !is_complete(
        disks,
        wals,
        (#[trigger] aborts[x]).txnid,
    ) && exists|d: int, i: int| #[trigger]
        is_entry_of(wals, d, i, aborts[x].txnid) && wals[d]@[i].key@ == aborts[x].key@ by {
        reveal(is_abort);
        assert(is_abort(disks, wals, aborts[x]));
    }
    assert forall|x: int, y: int| 0 <= x < y < aborts.len() implies (#[trigger] aborts[x]).txnid
        != (#[trigger] aborts[y]).txnid by {
        assert(from[x] < from[y]);
        assert(records[from[x]].txnid != records[from[y]].txnid);
    }
    assert forall|t: TxnId| #[trigger] is_logged(wals, t) implies t < next && (!is_complete(
        disks,
        wals,
        t,
    ) ==> exists|x: int| 0 <= x < aborts.len() && (#[trigger] aborts[x]).txnid == t) by {
        lemma_known(disks, wals, m, t);
        let b = choose|b: int| 0 <= b < records.len() && (#[trigger] records[b]).txnid == t;
        assert(records[b].txnid < next);
        if !is_complete(disks, wals, t) {
            let x = choose|x: int| 0 <= x < from.len() && from[x] == b;
            assert(aborts[x].txnid == t);
        }
    }
}

/// Whether `next` is the number behind the highest logged transaction, or zero if there is none.
pub open spec fn is_next(wals: Seq<Vec<LogEntry>>, next: TxnId) -> bool {
    &&& forall|t: TxnId| #[trigger] is_logged(wals, t) ==> t < next
    &&& next > 0 ==> is_logged(wals, (next - 1) as u64)
}

/// Reconcile the logs of all disks: which transactions are to be removed, and the number of the next
/// transaction.
pub fn reconcile(disks: &[Disk], wals: &[Vec<LogEntry>]) -> (r: Result<
    (Vec<Abort>, TxnId),
    String,
>)
    requires
        disks@.len() == wals@.len(),
    ensures
        r is Ok <==> keys_agree(wals@) && !is_logged(wals@, TxnId::MAX),
        r matches Ok((aborts, next)) ==> are_aborts(disks@, wals@, aborts@) && is_next(
            wals@,
            next,
        ),
        r matches Err(t) ==> is_log_defect(wals@, t@),
{
    let (records, m) = match read_logs(disks, wals) {
        Ok(found) => found,
        Err(t) => {
            return Err(t);
        },
    };
    let ghost m = m@;
    let mut aborts: Vec<Abort> = Vec::new();
    let mut next: TxnId = 0;
    let mut a: usize = 0;
    let ghost mut from: Seq<int> = Seq::empty();
    while a < records.len()
        invariant
            a <= records@.len(),
            disks@.len() == wals@.len(),
            keys_agree(wals@),
            represents(records@, m),
            reconciled(disks@, wals@, wals@.len() as int, 0, m),
            forall|b: int| 0 <= b < a ==> (#[trigger] records@[b]).txnid < next,
            next > 0 ==> is_logged(wals@, (next - 1) as u64),
            come_from(records@, aborts@, from, a as int),
            forall|x: int| 0 <= x < aborts@.len() ==> is_abort(disks@, wals@, #[trigger] aborts@[x]),
            forall|b: int|
                0 <= b < a && !is_complete(disks@, wals@, (#[trigger] records@[b]).txnid)
                    ==> from.contains(b),
        decreases records.len() - a,
    {
        let txnid: TxnId = records[a].txnid;
        proof {
            assert(m.contains_key(records@[a as int].txnid));
            assert(is_logged(wals@, txnid) && (is_complete(disks@, wals@, txnid) <==> forall|d: int|
                0 <= d < disks@.len() ==> m[txnid].1.contains((#[trigger] disks@[d]).uuid))) by {
                lemma_known(disks@, wals@, m, txnid);
            }
        }
        if txnid == TxnId::MAX {
            return Err(owned("no transaction number left"));
        }
        if txnid >= next {
            next = txnid + 1;
        }
        let ghost before = from;
        if !is_on_all(disks, records[a].committed.as_slice()) {
            let abort = Abort { txnid, key: records[a].key.clone() };
            proof {
                lemma_abort(disks@, wals@, m, abort);
                from = from.push(a as int);
            }
            aborts.push(abort);
        }
        proof {
            assert forall|b: int|
                0 <= b < a + 1 && !is_complete(
                    disks@,
                    wals@,
                    (#[trigger] records@[b]).txnid,
                ) implies from.contains(b) by {
                if b < a {
                    let x = choose|x: int| 0 <= x < before.len() && before[x] == b;
                    assert(from[x] == b);
                } else {
                    assert(from[before.len() as int] == b);
                }
            }
        }
        a += 1;
    }
    proof {
        lemma_aborts(disks@, wals@, m, records@, aborts@, from, next);
    }
    Ok((aborts, next))
}

/// Whether the pack on record on each disk is the pack of all disks.
pub open spec fn is_one_pack(disks: Seq<Disk>) -> bool {
    forall|d: int| 0 <= d < disks.len() ==> is_pack(uuids_of(disks), (#[trigger] disks[d]).pack@)
}

/// The numbers of disks.
pub open spec fn uuids_of(disks: Seq<Disk>) -> Seq<u128> {
    Seq::new(disks.len(), |d: int| disks[d].uuid)
}

proof fn lemma_one_order(a: Seq<u128>, b: Seq<u128>)
    requires
        in_order(a),
        in_order(b),
        a.to_multiset() == b.to_multiset(),
    ensures
        a == b,
{
    vstd::seq_lib::lemma_sorted_unique(a, b, |x: u128, y: u128| x <= y);
}

fn same_numbers(a: &[u128], b: &[u128]) -> (r: bool)
    ensures
        r == (a@ == b@),
{
    if a.len() != b.len() {
        return false;
    }
    let mut i: usize = 0;
    while i < a.len()
        invariant
            i <= a@.len() == b@.len(),
            forall|j: int| 0 <= j < i ==> a@[j] == b@[j],
        decreases a.len() - i,
    {
        if a[i] != b[i] {
            return false;
        }
        i += 1;
    }
    assert(a@ =~= b@);
    true
}

/// Check that all disks know that they are in the same pack.
pub fn check_pack(disks: &[Disk]) -> (r: Result<(), String>)
    ensures
        r is Ok <==> is_one_pack(disks@),
        r matches Err(m) ==> m@ == "Disks are not in the same pack"@,
{
    let mut uuids: Vec<u128> = Vec::new();
    let mut d: usize = 0;
    while d < disks.len()
        invariant
            d <= disks@.len(),
            uuids@ == uuids_of(disks@).take(d as int),
        decreases disks.len() - d,
    {
        uuids.push(disks[d].uuid);
        assert(uuids@ =~= uuids_of(disks@).take(d + 1));
        d += 1;
    }
    assert(uuids@ =~= uuids_of(disks@));
    let pack = sorted(uuids.as_slice());
    let mut d: usize = 0;
    while d < disks.len()
        invariant
            d <= disks@.len(),
            is_pack(uuids_of(disks@), pack@),
            forall|e: int|
                0 <= e < d ==> is_pack(uuids_of(disks@), (#[trigger] disks@[e]).pack@),
        decreases disks.len() - d,
    {
        if !same_numbers(disks[d].pack.as_slice(), pack.as_slice()) {
            proof {
                if is_pack(uuids_of(disks@), disks@[d as int].pack@) {
                    lemma_one_order(disks@[d as int].pack@, pack@);
                }
            }
            return Err(owned("Disks are not in the same pack"));
        }
        d += 1;
    }
    Ok(())
}

impl StorageEngine {
    /// The transactions that are under way.
    pub open spec fn in_flight(self) -> Set<u64> {
        self.uncommitted@
    }

    /// Whether what a transaction left can be seen.
    pub open spec fn is_visible(self, txnid: TxnId) -> bool {
        txnid < self.txn_counter && !self.in_flight().contains(txnid)
    }

    /// A new engine, with disks of the given numbers: what is put on record on each disk.
    pub fn create_with(disk_paths: Vec<String>, shards: (usize, usize), uuids: &[u128]) -> (r: Result<
        (Self, Vec<DiskConfig>),
        String,
    >)
        requires
            uuids@.len() == disk_paths@.len(),
        ensures
            r is Ok <==> create_defect(
                disk_paths@.len(),
                shards.0 as nat,
                shards.1 as nat,
            ) is None,
            r matches Ok((engine, configs)) ==> is_new_engine(engine, configs@, disk_paths@)
                && uuids_of(engine.disks@).to_multiset() == uuids@.to_multiset(),
            r matches Err(m) ==> create_defect(
                disk_paths@.len(),
                shards.0 as nat,
                shards.1 as nat,
            ) == Some(m@),
    {
        match check_create(disk_paths.len(), shards) {
            Ok(()) => {},
            Err(m) => {
                return Err(m);
            },
        }
        let pack = sorted(uuids);
        let mut disks: Vec<Disk> = Vec::new();
        let mut configs: Vec<DiskConfig> = Vec::new();
        let mut d: usize = 0;
        while d < disk_paths.len()
            invariant
                d <= disk_paths@.len() == pack@.len(),
                disks@.len() == d,
                configs@.len() == d,
                forall|e: int|
                    0 <= e < d ==> (#[trigger] disks@[e]).path@ == disk_paths@[e]@ && disks@[e].uuid
                        == pack@[e] && disks@[e].pack@ == pack@,
                forall|e: int|
                    0 <= e < d ==> (#[trigger] configs@[e]).uuid == pack@[e] && configs@[e].pack@
                        == pack@ && configs@[e].generation == 0,
            decreases disk_paths.len() - d,
        {
            let numbers: Vec<u128> = pack.clone();
            assert(numbers@ =~= pack@);
            let (disk, config) = Disk::create(disk_paths[d].clone(), pack[d], numbers);
            disks.push(disk);
            configs.push(config);
            d += 1;
        }
        assert(uuids_of(disks@) =~= pack@);
        let engine = StorageEngine { disks, txn_counter: 0, uncommitted: InFlight::new() };
        Ok((engine, configs))
    }

    /// A new engine, with disks of random numbers: what is put on record on each disk.
    pub fn create(disk_paths: Vec<String>, shards: (usize, usize)) -> (r: Result<
        (Self, Vec<DiskConfig>),
        String,
    >)
        ensures
            r is Ok <==> create_defect(
                disk_paths@.len(),
                shards.0 as nat,
                shards.1 as nat,
            ) is None,
            r matches Ok((engine, configs)) ==> is_new_engine(engine, configs@, disk_paths@)
                && forall|d: int|
                0 <= d < configs@.len() ==> is_random_uuid((#[trigger] configs@[d]).uuid),
            r matches Err(m) ==> create_defect(
                disk_paths@.len(),
                shards.0 as nat,
                shards.1 as nat,
            ) == Some(m@),
    {
        let mut uuids: Vec<u128> = Vec::new();
        let n: usize = disk_paths.len();
        while uuids.len() < n
            invariant
                uuids@.len() <= n,
                forall|d: int| 0 <= d < uuids@.len() ==> is_random_uuid(#[trigger] uuids@[d]),
            decreases n - uuids.len(),
        {
            uuids.push(random_uuid());
        }
        let r = StorageEngine::create_with(disk_paths, shards, uuids.as_slice());
        proof {
            if r is Ok {
                let (engine, configs) = r.unwrap();
                let sorted_uuids = uuids_of(engine.disks@);
                assert forall|d: int| 0 <= d < configs@.len() implies is_random_uuid(
                    (#[trigger] configs@[d]).uuid,
                ) by {
                    broadcast use vstd::seq_lib::group_to_multiset_ensures;

                    assert(sorted_uuids.contains(sorted_uuids[d]));
                    assert(sorted_uuids.to_multiset().count(sorted_uuids[d]) > 0);
                    assert(uuids@.contains(sorted_uuids[d]));
                }
            }
        }
        r
    }

    /// The engine of disks that are there, from their logs, with the transactions that are to be
    /// removed.
    pub fn load(disks: Vec<Disk>, wals: &[Vec<LogEntry>]) -> (r: Result<(Self, Vec<Abort>), String>)
        requires
            disks@.len() == wals@.len(),
        ensures
            r is Ok <==> is_one_pack(disks@) && keys_agree(wals@) && !is_logged(wals@, TxnId::MAX),
            r matches Ok((engine, aborts)) ==> engine.disks@ == disks@ && engine.in_flight()
                == Set::<u64>::empty() && are_aborts(disks@, wals@, aborts@) && is_next(
                wals@,
                engine.txn_counter,
            ),
            r matches Err(m) ==> if !is_one_pack(disks@) {
                m@ == "Disks are not in the same pack"@
            } else {
                is_log_defect(wals@, m@)
            },
    {
        match check_pack(disks.as_slice()) {
            Ok(()) => {},
            Err(m) => {
                return Err(m);
            },
        }
        match reconcile(disks.as_slice(), wals) {
            Ok((aborts, next)) => {
                Ok((StorageEngine { disks, txn_counter: next, uncommitted: InFlight::new() }, aborts))
            },
            Err(m) => Err(m),
        }
    }

    /// Start a transaction: its number. It is under way until it is finished.
    pub fn begin_put(&mut self) -> (r: TxnId)
        ensures
            r == old(self).txn_counter,
            final(self).disks == old(self).disks,
            final(self).in_flight() == old(self).in_flight().insert(r),
            final(self).txn_counter == if r == TxnId::MAX {
                0
            } else {
                r + 1
            },
    {
        let txnid: TxnId = self.txn_counter;
        self.txn_counter = txnid.wrapping_add(1);
        self.uncommitted.insert(txnid);
        txnid
    }

    /// Finish a transaction, whether it succeeded or was cleaned up.
    pub fn finish_put(&mut self, txnid: TxnId)
        ensures
            final(self).disks == old(self).disks,
            final(self).txn_counter == old(self).txn_counter,
            final(self).in_flight() == old(self).in_flight().remove(txnid),
    {
        self.uncommitted.remove(txnid);
    }

    /// Whether the file at `i` is that of a transaction that can be seen.
    pub open spec fn is_candidate(self, names: Seq<Result<String, String>>, i: int) -> bool {
        0 <= i < names.len() && names[i] is Ok && txn_of(names[i].unwrap()@) is Some
            && self.is_visible(txn_of(names[i].unwrap()@).unwrap())
    }

    /// Whether the file at `i` is the one of the highest transaction that can be seen: the first one,
    /// where several have its number.
    pub open spec fn is_choice(self, names: Seq<Result<String, String>>, i: int) -> bool {
        &&& self.is_candidate(names, i)
        &&& forall|j: int| #[trigger]
            self.is_candidate(names, j) ==> txn_of(names[j].unwrap()@).unwrap() <= txn_of(
                names[i].unwrap()@,
            ).unwrap() && (j < i ==> txn_of(names[j].unwrap()@).unwrap() < txn_of(
                names[i].unwrap()@,
            ).unwrap())
    }

    /// What the highest transaction that can be seen left of a key, from the names of the files in
    /// the key's directory. A name that is no text is given as a description of it.
    pub fn choose_highest_txn(&self, names: &[Result<String, String>]) -> (r: Result<
        Option<KeyMatch>,
        String,
    >)
        ensures
            r is Ok <==> forall|i: int| 0 <= i < names@.len() ==> (#[trigger] names@[i]) is Ok,
            r matches Ok(Some(m)) ==> exists|i: int| #[trigger]
                self.is_choice(names@, i) && is_match_of(m, names@[i].unwrap()@),
            r matches Ok(c) ==> (c is None <==> forall|i: int| !#[trigger]
                self.is_candidate(names@, i)),
            r matches Err(t) ==> exists|i: int|
                0 <= i < names@.len() && (#[trigger] names@[i] matches Err(n) && t@ == bad_name(
                    n@,
                )) && forall|j: int| 0 <= j < i ==> (#[trigger] names@[j]) is Ok,
    {
        let mut choice: Option<(TxnId, usize)> = None;
        let mut i: usize = 0;
        while i < names.len()
            invariant
                i <= names@.len(),
                forall|j: int| 0 <= j < i ==> (#[trigger] names@[j]) is Ok,
                match choice {
                    Some((t, c)) => c < i && self.is_candidate(names@, c as int) && t == txn_of(
                        names@[c as int].unwrap()@,
                    ).unwrap() && forall|j: int|
                        j < i && #[trigger] self.is_candidate(names@, j) ==> txn_of(
                            names@[j].unwrap()@,
                        ).unwrap() <= t && (j < c ==> txn_of(names@[j].unwrap()@).unwrap() < t),
                    None => forall|j: int| j < i ==> !#[trigger] self.is_candidate(names@, j),
                },
            decreases names.len() - i,
        {
            let name: &String = match &names[i] {
                Ok(name) => name,
                Err(text) => {
                    let t = join2("Invalid UTF-8 in transaction ID: ", text.as_str());
                    assert(names@[i as int] matches Err(n) && t@ == bad_name(n@));
                    return Err(t);
                },
            };
            let bare = without_marks(name.as_str());
            match parse_u64(bare.as_str()) {
                Some(txnid) => {
                    let visible: bool = txnid < self.txn_counter && !self.uncommitted.contains(
                        txnid,
                    );
                    if visible {
                        assert(self.is_candidate(names@, i as int));
                        match choice {
                            None => {
                                choice = Some((txnid, i));
                            },
                            Some((old_txnid, _)) => {
                                if txnid > old_txnid {
                                    choice = Some((txnid, i));
                                }
                            },
                        }
                    }
                },
                None => {},
            }
            i += 1;
        }
        match choice {
            Some((_, c)) => {
                assert(self.is_choice(names@, c as int));
                match &names[c] {
                    Ok(name) => {
                        let bare = without_marks(name.as_str());
                        proof {
                            lemma_unmarked_len(name@);
                        }
                        if bare.as_str().unicode_len() < name.as_str().unicode_len() {
                            Ok(Some(KeyMatch::Deleted))
                        } else {
                            Ok(Some(KeyMatch::Object(name.clone())))
                        }
                    },
                    Err(_) => Ok(None),
                }
            },
            None => Ok(None),
        }
    }

    /// The file with the object of a key, if it has one, from the names of the files in the key's
    /// directory.
    pub fn get(&self, names: &[Result<String, String>]) -> (r: Result<Option<String>, String>)
        ensures
            r is Ok <==> forall|i: int| 0 <= i < names@.len() ==> (#[trigger] names@[i]) is Ok,
            r matches Ok(Some(name)) ==> exists|i: int| #[trigger]
                self.is_choice(names@, i) && names@[i].unwrap()@ == name@ && !is_marked(name@),
            r matches Ok(f) ==> (f is None <==> forall|i: int| #[trigger]
                self.is_choice(names@, i) ==> is_marked(names@[i].unwrap()@)),
            r matches Err(t) ==> exists|i: int|
                0 <= i < names@.len() && (#[trigger] names@[i] matches Err(n) && t@ == bad_name(
                    n@,
                )) && forall|j: int| 0 <= j < i ==> (#[trigger] names@[j]) is Ok,
    {
        match self.choose_highest_txn(names) {
            Ok(Some(KeyMatch::Object(name))) => {
                proof {
                    let i = choose|i: int| #[trigger]
                        self.is_choice(names@, i) && is_match_of(
                            KeyMatch::Object(name),
                            names@[i].unwrap()@,
                        );
                    assert(self.is_choice(names@, i));
                    lemma_unmarked_len(names@[i].unwrap()@);
                }
                Ok(Some(name))
            },
            Ok(Some(KeyMatch::Deleted)) => {
                proof {
                    let c = choose|i: int| #[trigger]
                        self.is_choice(names@, i) && is_match_of(
                            KeyMatch::Deleted,
                            names@[i].unwrap()@,
                        );
                    assert forall|i: int| #[trigger] self.is_choice(names@, i) implies is_marked(
                        names@[i].unwrap()@,
                    ) by {
                        assert(self.is_candidate(names@, i));
                        assert(self.is_candidate(names@, c));
                    }
                }
                Ok(None)
            },
            Ok(None) => {
                assert forall|i: int| !#[trigger] self.is_choice(names@, i) by {
                    assert(!self.is_candidate(names@, i));
                }
                Ok(None)
            },
            Err(t) => Err(t),
        }
    }
}

/// Whether a file name has a deletion mark.
pub open spec fn is_marked(name: Seq<char>) -> bool {
    unmarked(name).len() < name.len()
}

proof fn lemma_unmarked_len(name: Seq<char>)
    ensures
        unmarked(name).len() <= name.len(),
    decreases name.len(),
{
    if DELETE_SUFFIX@.len() > 0 && DELETE_SUFFIX@.is_suffix_of(name) {
        lemma_unmarked_len(name.take(name.len() - DELETE_SUFFIX@.len()));
    }
}

/// Whether `engine` is new: no transaction has been, and its disks are one pack on record.
pub open spec fn is_new_engine(
    engine: StorageEngine,
    configs: Seq<DiskConfig>,
    disk_paths: Seq<String>,
) -> bool {
    let uuids = uuids_of(engine.disks@);
    &&& engine.txn_counter == 0
    &&& engine.in_flight() == Set::<u64>::empty()
    &&& engine.disks@.len() == disk_paths.len()
    &&& configs.len() == disk_paths.len()
    &&& in_order(uuids)
    &&& forall|d: int|
        0 <= d < disk_paths.len() ==> (#[trigger] engine.disks@[d]).path@ == disk_paths[d]@
            && engine.disks@[d].pack@ == uuids
    &&& forall|d: int|
        0 <= d < disk_paths.len() ==> (#[trigger] configs[d]).uuid == uuids[d] && configs[d].pack@
            == uuids && configs[d].generation == 0
}

/// The directory of an object: its path below the objects, and the names of its files.
pub struct ObjectDir {
    pub relative_key: String,
    pub names: Vec<Result<String, String>>,
}

/// The message for a directory that stands for no key.
pub open spec fn bad_dir(relative_key: Seq<char>) -> Seq<char> {
    "Invalid non-UTF8 path in escape characters: "@ + relative_key
}

impl StorageEngine {
    /// Whether a directory holds an object that can be seen.
    pub open spec fn has_object(self, dir: ObjectDir) -> bool {
        exists|i: int| #[trigger]
            self.is_choice(dir.names@, i) && !is_marked(dir.names@[i].unwrap()@)
    }

    /// Whether a directory can be listed: its file names are texts and, if it holds an object, it
    /// stands for a key.
    pub open spec fn can_list(self, dir: ObjectDir) -> bool {
        &&& forall|i: int| 0 <= i < dir.names@.len() ==> (#[trigger] dir.names@[i]) is Ok
        &&& self.has_object(dir) ==> unclean_key_of(dir.relative_key@) is Some
    }

    /// The keys of the objects in directories, in their order.
    pub open spec fn keys_in(self, dirs: Seq<ObjectDir>) -> Seq<Seq<char>>
        decreases dirs.len(),
    {
        if dirs.len() == 0 {
            Seq::empty()
        } else if self.has_object(dirs.last()) {
            self.keys_in(dirs.drop_last()).push(
                unclean_key_of(dirs.last().relative_key@).unwrap(),
            )
        } else {
            self.keys_in(dirs.drop_last())
        }
    }

    /// List the keys of the objects that can be seen, from the directories that have the marker, in
    /// their order.
    pub fn list(&self, dirs: &[ObjectDir]) -> (r: Result<Vec<String>, String>)
        ensures
            r is Ok <==> forall|a: int| 0 <= a < dirs@.len() ==> self.can_list(#[trigger] dirs@[a]),
            r matches Ok(keys) ==> views(keys@) == self.keys_in(dirs@),
            r matches Err(t) ==> exists|a: int|
                0 <= a < dirs@.len() && !self.can_list(#[trigger] dirs@[a]) && (forall|b: int|
                    0 <= b < a ==> self.can_list(#[trigger] dirs@[b])) && (t@ == bad_dir(
                    dirs@[a].relative_key@,
                ) || exists|i: int|
                    0 <= i < dirs@[a].names@.len() && (#[trigger] dirs@[a].names@[i] matches Err(n)
                        && t@ == bad_name(n@))),
    {
        let mut keys: Vec<String> = Vec::new();
        let mut a: usize = 0;
        assert(dirs@.take(0) =~= Seq::empty());
        assert(views(keys@) =~= Seq::empty());
        while a < dirs.len()
            invariant
                a <= dirs@.len(),
                forall|b: int| 0 <= b < a ==> self.can_list(#[trigger] dirs@[b]),
                views(keys@) == self.keys_in(dirs@.take(a as int)),
            decreases dirs.len() - a,
        {
            let ghost dir = dirs@[a as int];
            let ghost before = views(keys@);
            assert(dirs@.take(a + 1).drop_last() =~= dirs@.take(a as int));
            match self.get(dirs[a].names.as_slice()) {
                Ok(Some(_)) => {
                    assert(self.has_object(dir));
                    match unclean_key(dirs[a].relative_key.as_str()) {
                        Some(key) => {
                            keys.push(key);
                            assert(views(keys@) =~= before.push(key@));
                        },
                        None => {
                            let t = join2(
                                "Invalid non-UTF8 path in escape characters: ",
                                dirs[a].relative_key.as_str(),
                            );
                            assert(!self.can_list(dirs@[a as int]));
                            return Err(t);
                        },
                    }
                },
                Ok(None) => {
                    assert(!self.has_object(dir));
                },
                Err(t) => {
                    assert(!self.can_list(dirs@[a as int]));
                    return Err(t);
                },
            }
            a += 1;
        }
        assert(dirs@.take(dirs@.len() as int) =~= dirs@);
        Ok(keys)
    }
}

/// What is done on one disk, in a transaction or to clean it up.
#[derive(Debug, Clone, Copy, PartialEq, Eq, Structural)]
pub enum ActionKind {
    /// Append the transaction to the log, as prepared.
    LogPrepared,
    /// Append the transaction to the log, as committed.
    LogCommitted,
    /// Append the transaction to the log, as aborted.
    LogAborted,
    /// Bring the log to the disk.
    SyncLog,
    /// Create the file that the transaction writes.
    CreateWip,
    /// Set the attributes of that file.
    SetAttributes,
    /// Copy the data to the files on all disks.
    CopyData,
    /// Bring the data of the file to the disk.
    SyncWip,
    /// Bring the directory of the files that are being written to the disk.
    SyncWipRoot,
    /// Create the directory of the object.
    CreateDir,
    /// Create the marker in that directory.
    CreateMarker,
    /// Move the file to its final place.
    Rename,
    /// Bring the directory of the object to the disk.
    SyncDir,
    /// Remove the object, if it is there.
    RemoveObject,
    /// Remove the deletion mark, if it is there.
    RemoveTombstone,
    /// Remove the file that was being written, if it is there.
    RemoveWip,
    /// Bring the directory of the object to the disk, if it is there.
    SyncDirIfThere,
}

/// Something that is done on a disk.
#[derive(Debug, Clone, Copy, PartialEq, Eq, Structural)]
pub struct Action {
    pub kind: ActionKind,
    pub disk: usize,
}

/// The same on each of `n` disks.
pub open spec fn on_each(kind: ActionKind, n: nat) -> Seq<Action> {
    Seq::new(n, |d: int| (Action { kind, disk: d as usize }))
}

fn push_each(actions: &mut Vec<Action>, kind: ActionKind, n: usize)
    ensures
        final(actions)@ == old(actions)@ + on_each(kind, n as nat),
{
    let mut d: usize = 0;
    assert(old(actions)@ + on_each(kind, 0) =~= old(actions)@);
    while d < n
        invariant
            d <= n,
            actions@ == old(actions)@ + on_each(kind, d as nat),
        decreases n - d,
    {
        actions.push(Action { kind, disk: d });
        assert(actions@ =~= old(actions)@ + on_each(kind, (d + 1) as nat));
        d += 1;
    }
}

/// Copying the data, and bringing it to each disk, where there is data.
pub open spec fn data_actions(n: nat, has_data: bool) -> Seq<Action> {
    if has_data {
        seq![Action { kind: ActionKind::CopyData, disk: 0 }] + on_each(ActionKind::SyncWip, n)
    } else {
        Seq::empty()
    }
}

/// What a transaction does, in order, up to the moving of the files: it is logged as prepared, and
/// its files are written.
pub open spec fn prepare_actions(n: nat, has_data: bool) -> Seq<Action> {
    on_each(ActionKind::LogPrepared, n) + on_each(ActionKind::SyncLog, n) + on_each(
        ActionKind::CreateWip,
        n,
    ) + on_each(ActionKind::SetAttributes, n) + data_actions(n, has_data) + on_each(
        ActionKind::SyncWipRoot,
        n,
    ) + on_each(ActionKind::CreateDir, n) + on_each(ActionKind::CreateMarker, n)
}

/// What a transaction does, in order: it is prepared, its files are moved to their final place, and
/// it is logged as committed.
pub open spec fn put_actions_of(n: nat, has_data: bool) -> Seq<Action> {
    prepare_actions(n, has_data) + on_each(ActionKind::Rename, n) + on_each(ActionKind::SyncDir, n)
        + on_each(ActionKind::LogCommitted, n) + on_each(ActionKind::SyncLog, n)
}

/// What a transaction does, in order. Without data it leaves a deletion mark.
pub fn put_actions(n: usize, has_data: bool) -> (r: Vec<Action>)
    ensures
        r@ == put_actions_of(n as nat, has_data),
{
    let mut r: Vec<Action> = Vec::new();
    push_each(&mut r, ActionKind::LogPrepared, n);
    push_each(&mut r, ActionKind::SyncLog, n);
    push_each(&mut r, ActionKind::CreateWip, n);
    push_each(&mut r, ActionKind::SetAttributes, n);
    let ghost before = r@;
    if has_data {
        r.push(Action { kind: ActionKind::CopyData, disk: 0 });
        push_each(&mut r, ActionKind::SyncWip, n);
    }
    assert(r@ =~= before + data_actions(n as nat, has_data));
    push_each(&mut r, ActionKind::SyncWipRoot, n);
    push_each(&mut r, ActionKind::CreateDir, n);
    push_each(&mut r, ActionKind::CreateMarker, n);
    assert(r@ =~= prepare_actions(n as nat, has_data));
    push_each(&mut r, ActionKind::Rename, n);
    push_each(&mut r, ActionKind::SyncDir, n);
    push_each(&mut r, ActionKind::LogCommitted, n);
    push_each(&mut r, ActionKind::SyncLog, n);
    r
}

/// What cleaning up a transaction does, in order: all that it left is removed, and it is logged as
/// aborted.
pub open spec fn cleanup_actions_of(n: nat) -> Seq<Action> {
    on_each(ActionKind::RemoveObject, n) + on_each(ActionKind::RemoveTombstone, n) + on_each(
        ActionKind::RemoveWip,
        n,
    ) + on_each(ActionKind::SyncDirIfThere, n) + on_each(ActionKind::SyncWipRoot, n) + on_each(
        ActionKind::LogAborted,
        n,
    ) + on_each(ActionKind::SyncLog, n)
}

/// What cleaning up a transaction does, in order.
pub fn cleanup_actions(n: usize) -> (r: Vec<Action>)
    ensures
        r@ == cleanup_actions_of(n as nat),
{
    let mut r: Vec<Action> = Vec::new();
    push_each(&mut r, ActionKind::RemoveObject, n);
    push_each(&mut r, ActionKind::RemoveTombstone, n);
    push_each(&mut r, ActionKind::RemoveWip, n);
    push_each(&mut r, ActionKind::SyncDirIfThere, n);
    push_each(&mut r, ActionKind::SyncWipRoot, n);
    push_each(&mut r, ActionKind::LogAborted, n);
    push_each(&mut r, ActionKind::SyncLog, n);
    assert(r@ =~= cleanup_actions_of(n as nat));
    r
}

/// The name of the file that a transaction leaves.
pub open spec fn file_name_of(txnid: TxnId, has_data: bool) -> Seq<char> {
    if has_data {
        decimal(txnid as nat)
    } else {
        decimal(txnid as nat) + DELETE_SUFFIX@
    }
}

/// The name of the file that a transaction leaves: an object, or a deletion mark.
pub fn file_name(txnid: TxnId, has_data: bool) -> (r: String)
    ensures
        r@ == file_name_of(txnid, has_data),
{
    let number = decimal_string(txnid as u128);
    if has_data {
        number
    } else {
        join2(number.as_str(), DELETE_SUFFIX)
    }
}

/// The name of the attribute that holds a metadata key.
pub fn attribute_name(key: &str) -> (r: String)
    ensures
        r@ == "user."@ + key@,
{
    join2("user.", key)
}

/// Whether something has been done on a disk.
pub open spec fn did(actions: Seq<Action>, kind: ActionKind, disk: int) -> bool {
    actions.contains(Action { kind, disk: disk as usize })
}

/// Where a transaction's actions on the files and the log stand in the plan.
proof fn lemma_put_plan(n: nat, has_data: bool, i: int)
    requires
        0 <= i < put_actions_of(n, has_data).len(),
    ensures
        ({
            let plan = put_actions_of(n, has_data);
            let p = prepare_actions(n, has_data).len();
            &&& plan.len() == p + 4 * n
            &&& p >= n
            &&& i < n ==> plan[i] == (Action { kind: ActionKind::LogPrepared, disk: i as usize })
            &&& plan[i].kind == ActionKind::Rename <==> p <= i < p + n
            &&& p <= i < p + n ==> plan[i].disk == (i - p) as usize
            &&& plan[i].kind == ActionKind::LogCommitted ==> p + 2 * n <= i
        }),
{
    let plan = put_actions_of(n, has_data);
    let prepare = prepare_actions(n, has_data);
    if i < prepare.len() {
        assert(plan[i] == prepare[i]);
    }
}

/// A log has a transaction as committed only when its files are in their final place on every disk.
pub proof fn law_commit_follows_data(n: nat, has_data: bool, k: int, d: int, e: int)
    requires
        n <= usize::MAX,
        0 <= d < n,
        0 <= e < n,
        0 <= k <= put_actions_of(n, has_data).len(),
        did(put_actions_of(n, has_data).take(k), ActionKind::LogCommitted, d),
    ensures
        did(put_actions_of(n, has_data).take(k), ActionKind::Rename, e),
{
    let plan = put_actions_of(n, has_data);
    let done = plan.take(k);
    let a = Action { kind: ActionKind::LogCommitted, disk: d as usize };
    let i = choose|i: int| 0 <= i < done.len() && done[i] == a;
    assert(plan[i] == a);
    lemma_put_plan(n, has_data, i);
    let at = prepare_actions(n, has_data).len() + e;
    lemma_put_plan(n, has_data, at);
    assert(done[at] == (Action { kind: ActionKind::Rename, disk: e as usize }));
}

/// A file is in its final place on a disk only when every log has the transaction.
pub proof fn law_data_follows_log(n: nat, has_data: bool, k: int, d: int, e: int)
    requires
        n <= usize::MAX,
        0 <= d < n,
        0 <= e < n,
        0 <= k <= put_actions_of(n, has_data).len(),
        did(put_actions_of(n, has_data).take(k), ActionKind::Rename, d),
    ensures
        did(put_actions_of(n, has_data).take(k), ActionKind::LogPrepared, e),
{
    let plan = put_actions_of(n, has_data);
    let done = plan.take(k);
    let a = Action { kind: ActionKind::Rename, disk: d as usize };
    let i = choose|i: int| 0 <= i < done.len() && done[i] == a;
    assert(plan[i] == a);
    lemma_put_plan(n, has_data, i);
    lemma_put_plan(n, has_data, e);
    assert(done[e] == (Action { kind: ActionKind::LogPrepared, disk: e as usize }));
}

/// Cleaning up a transaction removes whatever it may have left, on every disk.
pub proof fn law_cleanup_leaves_nothing(n: nat, d: int)
    requires
        n <= usize::MAX,
        0 <= d < n,
    ensures
        did(cleanup_actions_of(n), ActionKind::RemoveObject, d),
        did(cleanup_actions_of(n), ActionKind::RemoveTombstone, d),
        did(cleanup_actions_of(n), ActionKind::RemoveWip, d),
        did(cleanup_actions_of(n), ActionKind::LogAborted, d),
{
    let plan = cleanup_actions_of(n);
    assert(plan[d] == (Action { kind: ActionKind::RemoveObject, disk: d as usize }));
    assert(plan[n + d] == (Action { kind: ActionKind::RemoveTombstone, disk: d as usize }));
    assert(plan[2 * n + d] == (Action { kind: ActionKind::RemoveWip, disk: d as usize }));
    assert(plan[5 * n + d] == (Action { kind: ActionKind::LogAborted, disk: d as usize }));
}

/// Whether the logs hold of a transaction what has been done of it.
pub open spec fn logs_show(wals: Seq<Vec<LogEntry>>, done: Seq<Action>, txnid: TxnId) -> bool {
    &&& forall|d: int|
        0 <= d < wals.len() && #[trigger] did(done, ActionKind::LogPrepared, d) ==> exists|i: int|
            #[trigger] is_entry_of(wals, d, i, txnid)
    &&& forall|d: int, i: int| #[trigger]
        is_entry_of(wals, d, i, txnid) && wals[d]@[i].state == WalState::Committed ==> did(
            done,
            ActionKind::LogCommitted,
            d,
        )
}

/// A transaction that was interrupted anywhere is all there or removed: if the logs have it as
/// complete, its files are in their final place on every disk, and if any of them is and it is not
/// complete, the logs have it, so that it is among the transactions to remove.
pub proof fn law_interrupted_put_is_all_or_nothing(
    disks: Seq<Disk>,
    wals: Seq<Vec<LogEntry>>,
    has_data: bool,
    k: int,
    txnid: TxnId,
    aborts: Seq<Abort>,
    d: int,
)
    requires
        0 <= d < disks.len() <= usize::MAX,
        wals.len() == disks.len(),
        0 <= k <= put_actions_of(disks.len(), has_data).len(),
        logs_show(wals, put_actions_of(disks.len(), has_data).take(k), txnid),
        are_aborts(disks, wals, aborts),
    ensures
        is_complete(disks, wals, txnid) ==> did(
            put_actions_of(disks.len(), has_data).take(k),
            ActionKind::Rename,
            d,
        ),
        !is_complete(disks, wals, txnid) && did(
            put_actions_of(disks.len(), has_data).take(k),
            ActionKind::Rename,
            d,
        ) ==> exists|a: int| 0 <= a < aborts.len() && (#[trigger] aborts[a]).txnid == txnid,
{
    let n = disks.len();
    let done = put_actions_of(n, has_data).take(k);
    if is_complete(disks, wals, txnid) {
        assert(is_committed_on(disks, wals, txnid, disks[d].uuid));
        let (e, i) = choose|e: int, i: int| #[trigger]
            is_entry_of(wals, e, i, txnid) && disks[e].uuid == disks[d].uuid && wals[e]@[i].state
                == WalState::Committed;
        assert(did(done, ActionKind::LogCommitted, e));
        law_commit_follows_data(n, has_data, k, e, d);
    } else if did(done, ActionKind::Rename, d) {
        law_data_follows_log(n, has_data, k, d, d);
        assert(did(done, ActionKind::LogPrepared, d));
        let i = choose|i: int| #[trigger] is_entry_of(wals, d, i, txnid);
        assert(is_logged(wals, txnid));
    }
}

/// What a transaction leaves cannot be seen while it is under way and can be seen when it is
/// finished; what other transactions left stays as it was.
pub proof fn law_put_is_seen_when_finished(
    before: StorageEngine,
    during: StorageEngine,
    after: StorageEngine,
    txnid: TxnId,
    other: TxnId,
)
    requires
        before.txn_counter < TxnId::MAX,
        txnid == before.txn_counter,
        during.txn_counter == txnid + 1,
        during.in_flight() == before.in_flight().insert(txnid),
        after.txn_counter == during.txn_counter,
        after.in_flight() == during.in_flight().remove(txnid),
        other != txnid,
    ensures
        !during.is_visible(txnid),
        after.is_visible(txnid),
        during.is_visible(other) == before.is_visible(other),
        after.is_visible(other) == before.is_visible(other),
{
}

/// The transaction and the kind of a file are read back from its name.
pub proof fn law_file_name_is_read_back(txnid: TxnId, has_data: bool)
    ensures
        txn_of(file_name_of(txnid, has_data)) == Some(txnid),
        is_marked(file_name_of(txnid, has_data)) == !has_data,
{
    reveal_strlit(".deleted");
    let digits = decimal(txnid as nat);
    let name = file_name_of(txnid, has_data);
    law_decimal_is_read_back(txnid);
    assert(!DELETE_SUFFIX@.is_suffix_of(digits)) by {
        if DELETE_SUFFIX@.is_suffix_of(digits) {
            let at = digits.len() - DELETE_SUFFIX@.len();
            assert(digits.subrange(at, digits.len() as int)[0] == digits[at]);
            assert(DELETE_SUFFIX@[0] == '.');
            lemma_decimal_digits(txnid as nat);
            assert('0' <= digits[at] <= '9');
        }
    }
    assert(unmarked(digits) == digits);
    if !has_data {
        assert(name.subrange(digits.len() as int, name.len() as int) =~= DELETE_SUFFIX@);
        assert(name.take(name.len() - DELETE_SUFFIX@.len()) =~= digits);
        assert(unmarked(name) == unmarked(digits));
    }
}

/// Whether a log has a transaction as committed.
pub open spec fn has_committed(log: Seq<LogEntry>, txnid: TxnId) -> bool {
    exists|j: int|
        0 <= j < log.len() && (#[trigger] log[j]).txid == txnid && log[j].state
            == WalState::Committed
}

/// A transaction that is in some log and not committed in the log of every disk is removed at the
/// next start, and one that is committed in the logs of all disks is not.
pub proof fn law_only_transactions_committed_everywhere_stay(
    disks: Seq<Disk>,
    wals: Seq<Vec<LogEntry>>,
    aborts: Seq<Abort>,
    txnid: TxnId,
    d: int,
    i: int,
)
    requires
        wals.len() == disks.len(),
        forall|a: int, b: int|
            0 <= a < b < disks.len() ==> (#[trigger] disks[a]).uuid != (#[trigger] disks[b]).uuid,
        are_aborts(disks, wals, aborts),
        // The transaction is in a log.
        0 <= d < wals.len(),
        0 <= i < wals[d]@.len(),
        wals[d]@[i].txid == txnid,
    ensures
        (exists|a: int| 0 <= a < aborts.len() && (#[trigger] aborts[a]).txnid == txnid)
            <==> exists|e: int|
            0 <= e < wals.len() && !#[trigger] has_committed(wals[e]@, txnid),
{
    assert(is_entry_of(wals, d, i, txnid));
    assert(is_logged(wals, txnid));
    if exists|e: int| 0 <= e < wals.len() && !#[trigger] has_committed(wals[e]@, txnid) {
        let e = choose|e: int| 0 <= e < wals.len() && !#[trigger] has_committed(wals[e]@, txnid);
        if is_complete(disks, wals, txnid) {
            assert(is_committed_on(disks, wals, txnid, disks[e].uuid));
            let (f, j) = choose|f: int, j: int| #[trigger]
                is_entry_of(wals, f, j, txnid) && disks[f].uuid == disks[e].uuid
                    && wals[f]@[j].state == WalState::Committed;
            assert(f == e);
            assert(wals[e]@[j].txid == txnid);
        }
    } else {
        assert forall|e: int| 0 <= e < disks.len() implies is_committed_on(
            disks,
            wals,
            txnid,
            (#[trigger] disks[e]).uuid,
        ) by {
            assert(has_committed(wals[e]@, txnid));
            let log = wals[e]@;
            let j = choose|j: int|
                0 <= j < log.len() && (#[trigger] log[j]).txid == txnid && log[j].state
                    == WalState::Committed;
            assert(is_entry_of(wals, e, j, txnid));
        }
        assert(is_complete(disks, wals, txnid));
    }
}

/// No number of a logged transaction is given out again.
pub proof fn law_new_transaction_has_a_new_number(
    wals: Seq<Vec<LogEntry>>,
    next: TxnId,
    d: int,
    i: int,
)
    requires
        is_next(wals, next),
        0 <= d < wals.len(),
        0 <= i < wals[d]@.len(),
    ensures
        wals[d]@[i].txid < next,
{
    assert(is_entry_of(wals, d, i, wals[d]@[i].txid));
    assert(is_logged(wals, wals[d]@[i].txid));
}

/// Of the transactions that left something of an object, the highest one that can be seen decides:
/// where it wrote the object, the object is there, and where it deleted it, it is not, whatever
/// earlier transactions and those under way left.
pub proof fn law_last_finished_transaction_decides(
    engine: StorageEngine,
    dir: ObjectDir,
    i: int,
    txnid: TxnId,
    has_data: bool,
)
    requires
        0 <= i < dir.names@.len(),
        dir.names@[i] is Ok,
        dir.names@[i].unwrap()@ == file_name_of(txnid, has_data),
        engine.is_visible(txnid),
        // Each other file is that of an earlier transaction, of one that cannot be seen, or of none.
        forall|j: int|
            0 <= j < dir.names@.len() && j != i && (#[trigger] dir.names@[j]) is Ok ==> (txn_of(
                dir.names@[j].unwrap()@,
            ) matches Some(t) ==> t < txnid || !engine.is_visible(t)),
    ensures
        engine.has_object(dir) <==> has_data,
{
    law_file_name_is_read_back(txnid, has_data);
    assert(engine.is_candidate(dir.names@, i));
    assert(engine.is_choice(dir.names@, i)) by {
        assert forall|j: int| #[trigger] engine.is_candidate(dir.names@, j) implies txn_of(
            dir.names@[j].unwrap()@,
        ).unwrap() <= txnid && (j < i ==> txn_of(dir.names@[j].unwrap()@).unwrap() < txnid) by {
            assert(dir.names@[j] is Ok);
        }
    }
    if engine.has_object(dir) {
        let j = choose|j: int| #[trigger]
            engine.is_choice(dir.names@, j) && !is_marked(dir.names@[j].unwrap()@);
        assert(engine.is_candidate(dir.names@, j));
        assert(dir.names@[j] is Ok);
        assert(j == i);
    }
}

/// A listing shows the key of every directory that holds an object, and no other key.
pub proof fn law_listing_shows_the_objects_that_are_there(
    engine: StorageEngine,
    dirs: Seq<ObjectDir>,
    key: Seq<char>,
)
    requires
        forall|a: int|
            0 <= a < dirs.len() ==> engine.can_list(#[trigger] dirs[a]),
    ensures
        engine.keys_in(dirs).contains(key) <==> exists|a: int|
            0 <= a < dirs.len() && engine.has_object(#[trigger] dirs[a]) && unclean_key_of(
                dirs[a].relative_key@,
            ) == Some(key),
    decreases dirs.len(),
{
    if dirs.len() > 0 {
        let shorter = dirs.drop_last();
        assert forall|a: int| 0 <= a < shorter.len() implies engine.can_list(
            #[trigger] shorter[a],
        ) by {
            assert(shorter[a] == dirs[a]);
        }
        law_listing_shows_the_objects_that_are_there(engine, shorter, key);
        assert(engine.can_list(dirs[dirs.len() - 1]));
        let before = engine.keys_in(shorter);
        let here = engine.keys_in(dirs);
        if here.contains(key) {
            let x = choose|x: int| 0 <= x < here.len() && here[x] == key;
            if x < before.len() {
                assert(before[x] == key);
                assert(before.contains(key));
                let a = choose|a: int|
                    0 <= a < shorter.len() && engine.has_object(#[trigger] shorter[a])
                        && unclean_key_of(shorter[a].relative_key@) == Some(key);
                assert(shorter[a] == dirs[a]);
            }
        }
        if exists|a: int|
            0 <= a < dirs.len() && engine.has_object(#[trigger] dirs[a]) && unclean_key_of(
                dirs[a].relative_key@,
            ) == Some(key) {
            let a = choose|a: int|
                0 <= a < dirs.len() && engine.has_object(#[trigger] dirs[a]) && unclean_key_of(
                    dirs[a].relative_key@,
                ) == Some(key);
            if a < shorter.len() {
                assert(shorter[a] == dirs[a]);
                let x = choose|x: int| 0 <= x < before.len() && before[x] == key;
                assert(here[x] == key);
            } else {
                assert(here.last() == key);
            }
        }
    } else {
        assert(!engine.keys_in(dirs).contains(key));
    }
}

/// Disks that are accepted as one pack all have the same pack on record, and every one of them is
/// in it.
pub proof fn law_disks_of_one_pack_know_each_other(disks: Seq<Disk>, d: int, e: int)
    requires
        is_one_pack(disks),
        0 <= d < disks.len(),
        0 <= e < disks.len(),
    ensures
        disks[d].pack@ == disks[e].pack@,
        disks[d].pack@.contains(disks[e].uuid),
        disks[d].pack@.len() == disks.len(),
{
    let uuids = uuids_of(disks);
    let pack = disks[d].pack@;
    assert(is_pack(uuids, pack));
    assert(is_pack(uuids, disks[e].pack@));
    lemma_one_order(pack, disks[e].pack@);
    broadcast use vstd::seq_lib::group_to_multiset_ensures;

    assert(uuids[e] == disks[e].uuid);
    assert(uuids.contains(uuids[e]));
    assert(uuids.to_multiset().count(uuids[e]) > 0);
    assert(pack.to_multiset().count(uuids[e]) > 0);
    assert(pack.len() == pack.to_multiset().len());
    assert(uuids.len() == uuids.to_multiset().len());
}

/// An engine is made only of enough disks for its shards, with more data shards than parity shards
/// and at least one of each, and of every such choice with at least three disks.
pub proof fn law_engine_has_disks_for_its_shards(disks: nat, data: nat, parity: nat)
    ensures
        create_defect(disks, data, parity) is None <==> 1 <= parity < data && data + parity
            <= disks,
{
}

proof fn lemma_prepare_plan(n: nat, has_data: bool)
    ensures
        ({
            let plan = prepare_actions(n, has_data);
            let data = if has_data {
                1 + n
            } else {
                0
            };
            &&& plan.len() == 7 * n + data
            &&& forall|e: int|
                0 <= e < n ==> (#[trigger] plan[e]) == (Action {
                    kind: ActionKind::LogPrepared,
                    disk: e as usize,
                })
            &&& forall|e: int|
                n <= e < 2 * n ==> (#[trigger] plan[e]) == (Action {
                    kind: ActionKind::SyncLog,
                    disk: (e - n) as usize,
                })
            &&& has_data ==> forall|e: int|
                4 * n + 1 <= e < 5 * n + 1 ==> (#[trigger] plan[e]) == (Action {
                    kind: ActionKind::SyncWip,
                    disk: (e - 4 * n - 1) as usize,
                })
            &&& forall|e: int|
                4 * n + data <= e < 5 * n + data ==> (#[trigger] plan[e]) == (Action {
                    kind: ActionKind::SyncWipRoot,
                    disk: (e - 4 * n - data) as usize,
                })
            &&& forall|e: int|
                6 * n + data <= e < 7 * n + data ==> (#[trigger] plan[e]) == (Action {
                    kind: ActionKind::CreateMarker,
                    disk: (e - 6 * n - data) as usize,
                })
        }),
{
}

/// No file is moved to its final place before the log, the data and the directory entries of the
/// transaction are on all disks.
pub proof fn law_move_follows_what_it_needs(n: nat, has_data: bool, k: int, d: int, e: int)
    requires
        n <= usize::MAX,
        0 <= d < n,
        0 <= e < n,
        0 <= k <= put_actions_of(n, has_data).len(),
        did(put_actions_of(n, has_data).take(k), ActionKind::Rename, d),
    ensures
        did(put_actions_of(n, has_data).take(k), ActionKind::SyncLog, e),
        has_data ==> did(put_actions_of(n, has_data).take(k), ActionKind::SyncWip, e),
        did(put_actions_of(n, has_data).take(k), ActionKind::SyncWipRoot, e),
        did(put_actions_of(n, has_data).take(k), ActionKind::CreateMarker, e),
{
    let plan = put_actions_of(n, has_data);
    let head = prepare_actions(n, has_data);
    let done = plan.take(k);
    let a = Action { kind: ActionKind::Rename, disk: d as usize };
    let i = choose|i: int| 0 <= i < done.len() && done[i] == a;
    assert(plan[i] == a);
    lemma_put_plan(n, has_data, i);
    lemma_prepare_plan(n, has_data);
    assert forall|x: int| 0 <= x < head.len() implies head[x] == #[trigger] done[x] by {}
    let data = if has_data {
        1 + n
    } else {
        0
    };
    assert(head[n + e] == done[n + e]);
    assert(head[4 * n + data + e] == done[4 * n + data + e]);
    assert(head[6 * n + data + e] == done[6 * n + data + e]);
    if has_data {
        assert(head[4 * n + 1 + e] == done[4 * n + 1 + e]);
    }
}

/// A transaction is logged as committed only when its files are in their final place on all disks
/// and the directories that hold them are on disk, and at its end every log is on disk.
pub proof fn law_commit_is_last_and_on_disk(n: nat, has_data: bool, k: int, d: int, e: int)
    requires
        n <= usize::MAX,
        0 <= d < n,
        0 <= e < n,
        0 <= k <= put_actions_of(n, has_data).len(),
    ensures
        did(put_actions_of(n, has_data).take(k), ActionKind::LogCommitted, d) ==> did(
            put_actions_of(n, has_data).take(k),
            ActionKind::SyncDir,
            e,
        ),
        ({
            let plan = put_actions_of(n, has_data);
            &&& plan[plan.len() - n + d] == (Action {
                kind: ActionKind::SyncLog,
                disk: d as usize,
            })
            &&& plan[plan.len() - 2 * n + d] == (Action {
                kind: ActionKind::LogCommitted,
                disk: d as usize,
            })
        }),
{
    let plan = put_actions_of(n, has_data);
    let head = prepare_actions(n, has_data);
    let done = plan.take(k);
    let h = head.len();
    assert(plan.len() == h + 4 * n);
    assert(plan[h + n + e] == (Action { kind: ActionKind::SyncDir, disk: e as usize }));
    if did(done, ActionKind::LogCommitted, d) {
        let a = Action { kind: ActionKind::LogCommitted, disk: d as usize };
        let i = choose|i: int| 0 <= i < done.len() && done[i] == a;
        assert(plan[i] == a);
        lemma_put_plan(n, has_data, i);
        assert(done[h + n + e] == plan[h + n + e]);
    }
}

/// Logs that are accepted have one key for each transaction, in all entries on all disks.
pub proof fn law_accepted_logs_agree_on_keys(
    wals: Seq<Vec<LogEntry>>,
    d: int,
    i: int,
    e: int,
    j: int,
)
    requires
        keys_agree(wals),
        0 <= d < wals.len(),
        0 <= i < wals[d]@.len(),
        0 <= e < wals.len(),
        0 <= j < wals[e]@.len(),
        wals[d]@[i].txid == wals[e]@[j].txid,
    ensures
        components_of(wals[d]@[i].key@) == components_of(wals[e]@[j].key@),
{
    let t = wals[d]@[i].txid;
    assert(is_entry_of(wals, d, i, t));
    assert(is_entry_of(wals, e, j, t));
}

/// A transaction that has not begun cannot be seen, and one that is under way cannot either.
pub proof fn law_only_finished_transactions_are_seen(engine: StorageEngine, txnid: TxnId)
    ensures
        txnid >= engine.txn_counter ==> !engine.is_visible(txnid),
        engine.in_flight().contains(txnid) ==> !engine.is_visible(txnid),
        txnid < engine.txn_counter && !engine.in_flight().contains(txnid) ==> engine.is_visible(
            txnid,
        ),
{
}

/// No file of a transaction is written before every log has the transaction and is on disk.
pub proof fn law_files_follow_the_log(n: nat, has_data: bool, k: int, d: int, e: int)
    requires
        n <= usize::MAX,
        0 <= d < n,
        0 <= e < n,
        0 <= k <= put_actions_of(n, has_data).len(),
        did(put_actions_of(n, has_data).take(k), ActionKind::CreateWip, d),
    ensures
        did(put_actions_of(n, has_data).take(k), ActionKind::LogPrepared, e),
        did(put_actions_of(n, has_data).take(k), ActionKind::SyncLog, e),
{
    let plan = put_actions_of(n, has_data);
    let head = prepare_actions(n, has_data);
    let done = plan.take(k);
    let a = Action { kind: ActionKind::CreateWip, disk: d as usize };
    let i = choose|i: int| 0 <= i < done.len() && done[i] == a;
    assert(plan[i] == a);
    lemma_prepare_plan(n, has_data);
    assert(2 * n <= i) by {
        if i < 2 * n {
            assert(plan[i] == head[i]);
        }
    }
    assert(head[e] == done[e]);
    assert(head[n + e] == done[n + e]);
}

/// A transaction is logged as aborted only when all that it left is removed from every disk.
pub proof fn law_abort_follows_removal(n: nat, k: int, d: int, e: int)
    requires
        n <= usize::MAX,
        0 <= d < n,
        0 <= e < n,
        0 <= k <= cleanup_actions_of(n).len(),
        did(cleanup_actions_of(n).take(k), ActionKind::LogAborted, d),
    ensures
        did(cleanup_actions_of(n).take(k), ActionKind::RemoveObject, e),
        did(cleanup_actions_of(n).take(k), ActionKind::RemoveTombstone, e),
        did(cleanup_actions_of(n).take(k), ActionKind::RemoveWip, e),
        did(cleanup_actions_of(n).take(k), ActionKind::SyncDirIfThere, e),
{
    let plan = cleanup_actions_of(n);
    let done = plan.take(k);
    let a = Action { kind: ActionKind::LogAborted, disk: d as usize };
    let i = choose|i: int| 0 <= i < done.len() && done[i] == a;
    assert(plan[i] == a);
    assert(5 * n <= i) by {
        if i < n {
            assert(plan[i].kind == ActionKind::RemoveObject);
        } else if i < 2 * n {
            assert(plan[i].kind == ActionKind::RemoveTombstone);
        } else if i < 3 * n {
            assert(plan[i].kind == ActionKind::RemoveWip);
        } else if i < 4 * n {
            assert(plan[i].kind == ActionKind::SyncDirIfThere);
        } else if i < 5 * n {
            assert(plan[i].kind == ActionKind::SyncWipRoot);
        }
    }
    assert(done[e] == (Action { kind: ActionKind::RemoveObject, disk: e as usize }));
    assert(done[n + e] == (Action { kind: ActionKind::RemoveTombstone, disk: e as usize }));
    assert(done[2 * n + e] == (Action { kind: ActionKind::RemoveWip, disk: e as usize }));
    assert(done[3 * n + e] == (Action { kind: ActionKind::SyncDirIfThere, disk: e as usize }));
}

/// A listing keeps the order of the directories.
pub proof fn law_listing_keeps_the_order(
    engine: StorageEngine,
    a: Seq<ObjectDir>,
    b: Seq<ObjectDir>,
)
    ensures
        engine.keys_in(a + b) == engine.keys_in(a) + engine.keys_in(b),
    decreases b.len(),
{
    if b.len() == 0 {
        assert(a + b =~= a);
        assert(engine.keys_in(a) + engine.keys_in(b) =~= engine.keys_in(a));
    } else {
        law_listing_keeps_the_order(engine, a, b.drop_last());
        assert((a + b).drop_last() =~= a + b.drop_last());
        assert((a + b).last() == b.last());
        assert(engine.keys_in(a + b) =~= engine.keys_in(a) + engine.keys_in(b));
    }
}

} // verus!
