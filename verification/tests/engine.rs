//! The storage engine with its keys, plans and recovery.
use yotepack::fsutil::{
    ignore_errorkind, read_retry_on_intr, IoError, IoErrorKind, MultiWriter, ReadStep, WriteStep,
};
use yotepack::key_paths::{clean_key, components, join_path, unclean_key};
use yotepack::storage_engine::{
    attribute_name, check_create, cleanup_actions, file_name, put_actions, reconcile, ActionKind,
    Disk, DiskConfig, KeyMatch, ObjectDir, StorageEngine,
};
use yotepack::transaction_log::{LogEntry, WalState, WalType};

fn paths(n: usize) -> Vec<String> {
    (0..n).map(|i| format!("/d{i}")).collect()
}

fn engine() -> StorageEngine {
    StorageEngine::create_with(paths(3), (2, 1), &[30, 10, 20]).unwrap().0
}

fn names(list: &[&str]) -> Vec<Result<String, String>> {
    list.iter().map(|n| Ok(n.to_string())).collect()
}

fn entry(txid: u64, key: &str, state: WalState) -> LogEntry {
    LogEntry { entry_type: WalType::Write, txid, key: key.to_string(), state }
}

#[test]
fn keys_are_split_into_components() {
    assert_eq!(components("a//b/./c/"), ["a", "b", "c"]);
    assert_eq!(components("/a/b"), ["/", "a", "b"]);
    assert_eq!(components("./a"), [".", "a"]);
    assert_eq!(components("../a"), ["..", "a"]);
    assert!(components("").is_empty());
    assert_eq!(join_path("/root", "a"), "/root/a");
    assert_eq!(join_path("/root/", "a"), "/root/a");
    assert_eq!(join_path("/root", "/a"), "/a");
}

#[test]
fn clean_keys_have_no_dots_and_are_found_again() {
    assert_eq!(clean_key("a.b/../c"), "a%2Eb/%2E%2E/c");
    assert_eq!(clean_key("ü/x"), "%C3%BC/x");
    for key in ["a.b/../c", "ü/x y", "/abs/1.deleted", "plain"] {
        assert_eq!(unclean_key(&clean_key(key)).unwrap(), key);
    }
    // Slashes that count as nothing are gone.
    assert_eq!(unclean_key(&clean_key("a//b/")).unwrap(), "a/b");
    // A percent sign is taken for an escape.
    assert_eq!(unclean_key(&clean_key("50%2E")).unwrap(), "50.");
    assert_eq!(unclean_key("%FF"), None);
    assert_eq!(unclean_key("100%"), Some("100%".to_string()));
    assert_eq!(unclean_key("%c3%bc"), Some("ü".to_string()));
}

#[test]
fn engines_need_enough_disks_and_shards() {
    assert!(check_create(3, (2, 1)).is_ok());
    assert_eq!(check_create(2, (2, 1)).unwrap_err(), "At least 3 disks must be provisioned");
    assert_eq!(
        check_create(3, (0, 1)).unwrap_err(),
        "At least 1 data shard and 1 parity shard required"
    );
    assert_eq!(check_create(3, (3, 1)).unwrap_err(), "Not enough disks for shard configuration");
    assert_eq!(check_create(4, (2, 2)).unwrap_err(), "Need more data shards than parity shards");
    assert_eq!(
        check_create(3, (usize::MAX, usize::MAX)).unwrap_err(),
        "Not enough disks for shard configuration"
    );
}

#[test]
fn a_new_engine_is_one_pack() {
    let (engine, configs) = StorageEngine::create_with(paths(3), (2, 1), &[30, 10, 20]).unwrap();
    assert_eq!(engine.txn_counter, 0);
    let uuids: Vec<u128> = engine.disks.iter().map(|d| d.uuid).collect();
    assert_eq!(uuids, [10, 20, 30]);
    assert_eq!(configs[1].pack, [10, 20, 30]);
    assert_eq!(configs[1].generation, 0);
    let (engine, _) = StorageEngine::create(paths(5), (3, 2)).unwrap();
    let uuids: Vec<u128> = engine.disks.iter().map(|d| d.uuid).collect();
    assert_eq!(uuids.len(), 5);
    assert!(uuids.windows(2).all(|w| w[0] < w[1]));
    assert!(StorageEngine::create(paths(2), (2, 1)).is_err());
}

#[test]
fn disks_have_their_directories() {
    let disk = Disk::load("/mnt/a".to_string(), DiskConfig { uuid: 1, pack: vec![1], generation: 0 });
    assert_eq!(disk.get_wip_root(), "/mnt/a/wip");
    assert_eq!(disk.get_wip_path(12), "/mnt/a/wip/12");
    assert_eq!(disk.get_object_root(), "/mnt/a/objects");
    assert_eq!(disk.get_object_path("x/y"), "/mnt/a/objects/x/y");
}

#[test]
fn the_highest_transaction_that_can_be_seen_is_chosen() {
    let mut engine = engine();
    engine.txn_counter = 10;
    let list = names(&["3", "yote.marker", "7", "5.deleted", "junk", "12"]);
    assert!(matches!(engine.choose_highest_txn(&list), Ok(Some(KeyMatch::Object(n))) if n == "7"));
    assert_eq!(engine.get(&list), Ok(Some("7".to_string())));
    let list = names(&["3", "8.deleted.deleted"]);
    assert!(matches!(engine.choose_highest_txn(&list), Ok(Some(KeyMatch::Deleted))));
    assert_eq!(engine.get(&list), Ok(None));
    assert!(matches!(engine.choose_highest_txn(&names(&["10"])), Ok(None)));
    let bad = vec![Ok("1".to_string()), Err("\"\\xFF\"".to_string())];
    assert_eq!(
        engine.get(&bad),
        Err("Invalid UTF-8 in transaction ID: \"\\xFF\"".to_string())
    );
}

#[test]
fn a_put_is_seen_when_it_is_finished() {
    let mut engine = engine();
    let first = engine.begin_put();
    let list = names(&[&file_name(first, true)]);
    assert_eq!(engine.get(&list), Ok(None));
    engine.finish_put(first);
    assert_eq!(engine.get(&list), Ok(Some("0".to_string())));
    let second = engine.begin_put();
    assert_eq!(second, 1);
    let list = names(&["0", &file_name(second, false)]);
    assert_eq!(engine.get(&list), Ok(Some("0".to_string())));
    engine.finish_put(second);
    assert_eq!(engine.get(&list), Ok(None));
    engine.txn_counter = u64::MAX;
    assert_eq!(engine.begin_put(), u64::MAX);
    assert_eq!(engine.txn_counter, 0);
}

#[test]
fn listings_show_the_keys_of_objects() {
    let mut engine = engine();
    engine.txn_counter = 4;
    let dir = |key: &str, list: &[&str]| ObjectDir {
        relative_key: key.to_string(),
        names: names(list),
    };
    let dirs = vec![
        dir("a%2Etxt", &["yote.marker", "0"]),
        dir("gone", &["1", "2.deleted"]),
        dir("later", &["9"]),
        dir("z", &["3"]),
    ];
    assert_eq!(engine.list(&dirs).unwrap(), ["a.txt", "z"]);
    let dirs = vec![dir("%FF", &["0"])];
    assert_eq!(
        engine.list(&dirs).unwrap_err(),
        "Invalid non-UTF8 path in escape characters: %FF"
    );
    assert!(engine.list(&[dir("%FF", &[])]).unwrap().is_empty());
}

#[test]
fn incomplete_transactions_are_found_at_startup() {
    let disks = engine().disks;
    let both = |txid, key| vec![entry(txid, key, WalState::Prepared), entry(txid, key, WalState::Committed)];
    let mut wals: Vec<Vec<LogEntry>> = (0..3).map(|_| both(0, "done")).collect();
    wals[0].extend(both(4, "half/way"));
    wals[1].push(entry(4, "half/way", WalState::Prepared));
    wals[2].push(entry(4, "half//way", WalState::Prepared));
    wals[0].push(entry(2, "aborted", WalState::Aborted));
    let (aborts, next) = reconcile(&disks, &wals).unwrap();
    let mut found: Vec<(u64, &str)> = aborts.iter().map(|a| (a.txnid, a.key.as_str())).collect();
    found.sort();
    assert_eq!(found, [(2, "aborted"), (4, "half/way")]);
    assert_eq!(next, 5);
    let (engine, aborts) = StorageEngine::load(disks, &wals).unwrap();
    assert_eq!(engine.txn_counter, 5);
    assert_eq!(aborts.len(), 2);
}

#[test]
fn logs_that_contradict_each_other_are_refused() {
    let disks = engine().disks;
    let wals = vec![
        vec![entry(1, "a", WalState::Prepared)],
        vec![entry(1, "b", WalState::Prepared)],
        vec![],
    ];
    assert_eq!(
        reconcile(&disks, &wals).unwrap_err(),
        "txnid 1 has inconsistent keys across disks: expected a, got b"
    );
    let wals = vec![vec![entry(u64::MAX, "a", WalState::Prepared)], vec![], vec![]];
    assert_eq!(reconcile(&disks, &wals).unwrap_err(), "no transaction number left");
    let (_, next) = reconcile(&disks, &[vec![], vec![], vec![]]).unwrap();
    assert_eq!(next, 0);
}

#[test]
fn disks_of_different_packs_are_refused() {
    let mut disks = engine().disks;
    disks[1].pack = vec![10, 20, 31];
    let empty = vec![vec![], vec![], vec![]];
    assert_eq!(
        StorageEngine::load(disks, &empty).err().unwrap(),
        "Disks are not in the same pack"
    );
}

#[test]
fn a_put_logs_before_and_after_it_moves_its_files() {
    let plan = put_actions(3, true);
    let at = |kind: ActionKind, disk: usize| {
        plan.iter().position(|a| a.kind == kind && a.disk == disk).unwrap()
    };
    for d in 0..3 {
        for e in 0..3 {
            assert!(at(ActionKind::LogPrepared, d) < at(ActionKind::Rename, e));
            assert!(at(ActionKind::Rename, d) < at(ActionKind::LogCommitted, e));
        }
    }
    assert_eq!(plan.iter().filter(|a| a.kind == ActionKind::CopyData).count(), 1);
    let plan = put_actions(3, false);
    assert!(plan.iter().all(|a| a.kind != ActionKind::CopyData && a.kind != ActionKind::SyncWip));
    assert_eq!(file_name(7, true), "7");
    assert_eq!(file_name(7, false), "7.deleted");
    assert_eq!(attribute_name("mime"), "user.mime");
}

#[test]
fn cleaning_up_removes_everything_on_every_disk() {
    let plan = cleanup_actions(2);
    for kind in [
        ActionKind::RemoveObject,
        ActionKind::RemoveTombstone,
        ActionKind::RemoveWip,
        ActionKind::LogAborted,
    ] {
        assert_eq!(plan.iter().filter(|a| a.kind == kind).count(), 2);
    }
}

fn error(kind: IoErrorKind) -> IoError {
    IoError { kind, message: String::new() }
}

#[test]
fn interrupted_reads_are_tried_again() {
    assert!(matches!(read_retry_on_intr(2, 10, Ok(3)), ReadStep::More(5)));
    assert!(matches!(read_retry_on_intr(2, 10, Ok(8)), ReadStep::Done(10)));
    assert!(matches!(read_retry_on_intr(2, 10, Ok(0)), ReadStep::Done(2)));
    assert!(matches!(
        read_retry_on_intr(2, 10, Err(error(IoErrorKind::Interrupted))),
        ReadStep::More(2)
    ));
    assert!(matches!(
        read_retry_on_intr(2, 10, Err(error(IoErrorKind::PermissionDenied))),
        ReadStep::Failed(e) if e.kind == IoErrorKind::PermissionDenied
    ));
}

#[test]
fn errors_of_one_kind_are_ignored() {
    assert!(ignore_errorkind(Ok(()), IoErrorKind::NotFound).is_ok());
    assert!(ignore_errorkind(Err(error(IoErrorKind::NotFound)), IoErrorKind::NotFound).is_ok());
    let kept = ignore_errorkind(Err(error(IoErrorKind::Other)), IoErrorKind::NotFound);
    assert_eq!(kept.unwrap_err().kind, IoErrorKind::Other);
}

#[test]
fn every_writer_gets_the_buffer_in_turn() {
    let writer = MultiWriter::new(vec!["a", "b"]);
    assert!(matches!(writer.write(8, &[]), WriteStep::Write(0)));
    assert!(matches!(writer.write(8, &[true]), WriteStep::Write(1)));
    assert!(matches!(writer.write(8, &[true, true]), WriteStep::Done(8)));
    assert!(matches!(writer.write(8, &[true, false]), WriteStep::Failed(1)));
}
