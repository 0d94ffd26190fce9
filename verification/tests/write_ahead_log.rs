//! The write-ahead log.
use yotepack::transaction_log::{
    entry_from_fields, entry_payload, read_entry_payload, read_exact_or_eof, read_segment_trailer,
    write_segment_trailer, LogEntry, LogError, TransactionLog, WalState, WalType,
};

fn read_all(log: &TransactionLog) -> Vec<Result<LogEntry, String>> {
    let mut iter = log.iterate();
    let mut out = Vec::new();
    while let Some(next) = iter.next() {
        out.push(next.map_err(|e| e.message()));
    }
    out
}

#[test]
fn test_new_with_existing_file() {
    let log = TransactionLog::new(b"existing content".to_vec());
    assert_eq!(log.contents(), b"existing content");
}

#[test]
fn test_iterate_empty_log() {
    let log = TransactionLog::new(Vec::new());
    let mut iter = log.iterate();
    assert!(iter.next().is_none());
    assert!(iter.next().is_none());
}

#[test]
fn test_append_and_iterate_multiple_entries() {
    let mut log = TransactionLog::new(Vec::new());
    let entries = vec![
        (WalType::Write, "key1", WalState::Prepared),
        (WalType::Write, "key2", WalState::Committed),
        (WalType::Delete, "key3", WalState::Aborted),
    ];
    for (ty, key, state) in &entries {
        log.append(*ty, 0, key, *state);
    }
    let mut iter = log.iterate();
    for (expected_ty, expected_key, expected_state) in entries {
        let entry = iter.next().unwrap().unwrap();
        assert_eq!(entry.entry_type, expected_ty);
        assert_eq!(entry.key, expected_key);
        assert_eq!(entry.state, expected_state);
    }
    assert!(iter.next().is_none());
}

#[test]
fn test_clear_empty_log() {
    let mut log = TransactionLog::new(Vec::new());
    log.clear();
    assert_eq!(log.contents().len(), 0);
}

#[test]
fn test_clear_with_entries() {
    let mut log = TransactionLog::new(Vec::new());
    log.append(WalType::Write, 0, "key1", WalState::Prepared);
    log.append(WalType::Write, 1, "key2", WalState::Committed);
    log.clear();
    assert_eq!(log.contents().len(), 0);
    assert!(log.iterate().next().is_none());
}

#[test]
fn test_append_after_clear() {
    let mut log = TransactionLog::new(Vec::new());
    log.append(WalType::Write, 0, "old_key", WalState::Prepared);
    log.clear();
    log.append(WalType::Write, 1, "new_key", WalState::Committed);
    let entries: Vec<String> = read_all(&log).into_iter().map(|e| e.unwrap().key).collect();
    assert_eq!(entries, vec!["new_key"]);
}

#[test]
fn test_append_with_special_characters() {
    let mut log = TransactionLog::new(Vec::new());
    let special_keys = vec![
        "key with spaces",
        "key/with/slashes",
        "key:with:colons",
        "key_with_unicode_🔥",
        "", // empty string
    ];
    for key in &special_keys {
        log.append(WalType::Write, 0, key, WalState::Prepared);
    }
    let entries = read_all(&log);
    for (entry, expected_key) in entries.into_iter().zip(special_keys) {
        assert_eq!(entry.unwrap().key, expected_key);
    }
}

#[test]
fn test_detect_corruption() {
    let mut log = TransactionLog::new(Vec::new());
    for key in ["key 1", "key 2", "key 3"] {
        log.append(WalType::Write, 0, key, WalState::Prepared);
    }
    let mut contents = log.contents().to_vec();
    let substring = b"key 2";
    let pos = contents.windows(substring.len()).position(|window| window == substring).unwrap();
    contents[pos] = 0xFF;
    let log = TransactionLog::new(contents);
    let keys: Vec<Result<String, String>> =
        read_all(&log).into_iter().map(|entry| entry.map(|e| e.key)).collect();
    assert_eq!(
        keys,
        vec![Ok("key 1".to_string()), Err("segment trailer checksum mismatch".to_string())]
    );
}

#[test]
fn a_segment_is_length_digest_and_payload() {
    let mut out = vec![9u8];
    write_segment_trailer(&mut out, b"abc");
    assert_eq!(out.len(), 1 + 4 + 16 + 3);
    assert_eq!(out[1..5], [3, 0, 0, 0]);
    let digest = xxhash_rust::xxh3::xxh3_128(b"\x03\x00\x00\x00abc");
    assert_eq!(out[5..21], digest.to_le_bytes());
    assert_eq!(&out[21..], b"abc");
    assert_eq!(read_segment_trailer(&out, 1), Ok(Some((b"abc".to_vec(), 24))));
    assert_eq!(read_segment_trailer(&out, 24), Ok(None));
}

#[test]
fn a_log_that_ends_inside_a_segment_is_refused() {
    let mut out = Vec::new();
    write_segment_trailer(&mut out, b"abc");
    assert_eq!(read_segment_trailer(&out[..2], 0), Err(LogError::IncompleteLength));
    assert_eq!(read_segment_trailer(&out[..10], 0), Err(LogError::UnexpectedEof));
    assert_eq!(read_segment_trailer(&out[..22], 0), Err(LogError::UnexpectedEof));
    assert_eq!(LogError::IncompleteLength.message(), "incomplete read after initial byte");
    assert_eq!(LogError::UnexpectedEof.message(), "failed to fill whole buffer");
    assert_eq!(read_exact_or_eof(b"", 0, 4), Ok(None));
    assert_eq!(read_exact_or_eof(b"abcde", 1, 4), Ok(Some(b"bcde".to_vec())));
}

#[test]
fn entries_are_read_back_with_all_they_say() {
    let mut log = TransactionLog::new(Vec::new());
    let long = "k".repeat(20_000);
    let entries = [
        (WalType::Write, 0, "", WalState::Prepared),
        (WalType::Delete, u64::MAX, "a/b\u{1f525}", WalState::Committed),
        (WalType::Write, 7, long.as_str(), WalState::Aborted),
    ];
    for (ty, txid, key, state) in entries {
        log.append(ty, txid, key, state);
    }
    let read: Vec<LogEntry> = read_all(&log).into_iter().map(|e| e.unwrap()).collect();
    assert_eq!(read.len(), 3);
    for (entry, (ty, txid, key, state)) in read.iter().zip(entries) {
        assert_eq!(entry.entry_type, ty);
        assert_eq!(entry.txid, txid);
        assert_eq!(entry.key, key);
        assert_eq!(entry.state, state);
    }
}

#[test]
fn an_entry_is_a_message_with_a_root_of_three_words() {
    let payload = entry_payload(WalType::Delete, 0x0102, "key", WalState::Aborted);
    let words: [u64; 6] = [
        // One segment of five words.
        5 << 32,
        // The root: a struct of two words of data and a pointer.
        (1 << 48) | (2 << 32),
        // Type and state.
        (2 << 16) | 1,
        0x0102,
        // A list of four bytes.
        (4 << 35) | (2 << 32) | 1,
        u64::from_le_bytes(*b"key\0\0\0\0\0"),
    ];
    let bytes: Vec<u8> = words.iter().flat_map(|w| w.to_le_bytes()).collect();
    assert_eq!(payload, bytes);
    let entry = read_entry_payload(&payload).unwrap();
    assert_eq!(entry.key, "key");
    assert_eq!(entry.txid, 0x0102);
}

#[test]
fn nothing_is_read_behind_a_payload_that_is_no_entry() {
    let mut log = TransactionLog::new(Vec::new());
    log.append(WalType::Write, 0, "a", WalState::Prepared);
    let mut contents = log.contents().to_vec();
    write_segment_trailer(&mut contents, b"no message");
    write_segment_trailer(
        &mut contents,
        &entry_payload(WalType::Write, 1, "b", WalState::Prepared),
    );
    let log = TransactionLog::new(contents);
    let mut iter = log.iterate();
    assert_eq!(iter.next().unwrap().unwrap().key, "a");
    assert_eq!(iter.next().unwrap().unwrap_err(), LogError::InvalidEntry);
    assert!(iter.next().is_none());
    assert_eq!(LogError::InvalidEntry.message(), "segment holds no log entry");
}

#[test]
fn entries_of_unknown_type_or_state_are_refused() {
    let key = || "k".to_string();
    let entry = entry_from_fields(Some((1, 2, 9, key()))).unwrap();
    assert_eq!(entry.entry_type, WalType::Delete);
    assert_eq!(entry.state, WalState::Aborted);
    assert_eq!((entry.txid, entry.key), (9, key()));
    for fields in [Some((2, 0, 9, key())), Some((0, 3, 9, key())), None] {
        assert_eq!(entry_from_fields(fields).unwrap_err(), LogError::InvalidEntry);
    }
    assert_eq!(read_entry_payload(b"").unwrap_err(), LogError::InvalidEntry);
}
