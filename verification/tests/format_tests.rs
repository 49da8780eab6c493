use lsm_core::codec::{decode_record, decode_stream, encode_delete, encode_set};
use lsm_core::memtable::MemTable;
use lsm_core::wal::replay;

#[test]
fn record_round_trip_set() {
    let ts: u128 = 0x0102030405060708090a0b0c0d0e0f10;
    let bytes = encode_set(b"key", b"value", ts);
    // key_len(8) + tombstone(1) + value_len(8) + key(3) + value(5) + timestamp(16)
    assert_eq!(bytes.len(), 8 + 1 + 8 + 3 + 5 + 16);
    let (entry, next) = decode_record(&bytes, 0).unwrap();
    assert_eq!(entry.key, b"key");
    assert_eq!(entry.value.as_ref().unwrap(), b"value");
    assert_eq!(entry.timestamp, ts);
    assert!(!entry.deleted);
    assert_eq!(next, bytes.len());
}

#[test]
fn record_round_trip_delete() {
    let bytes = encode_delete(b"gone", 42);
    assert_eq!(bytes.len(), 8 + 1 + 4 + 16);
    let (entry, next) = decode_record(&bytes, 0).unwrap();
    assert_eq!(entry.key, b"gone");
    assert!(entry.value.is_none());
    assert_eq!(entry.timestamp, 42);
    assert!(entry.deleted);
    assert_eq!(next, bytes.len());
}

#[test]
fn record_round_trip_empty_key_and_value() {
    let bytes = encode_set(b"", b"", 0);
    let (entry, _) = decode_record(&bytes, 0).unwrap();
    assert_eq!(entry.key, b"");
    assert_eq!(entry.value.as_ref().unwrap(), b"");
    assert_eq!(entry.timestamp, 0);
    assert!(!entry.deleted);

    let tomb = encode_delete(b"", u128::MAX);
    let (entry2, _) = decode_record(&tomb, 0).unwrap();
    assert_eq!(entry2.key, b"");
    assert!(entry2.deleted);
    assert_eq!(entry2.timestamp, u128::MAX);
}

#[test]
fn record_wire_layout_is_bit_exact() {
    let bytes = encode_set(b"a", b"b", 1);
    let mut expected: Vec<u8> = Vec::new();
    expected.extend_from_slice(&1u64.to_le_bytes()); // key_len
    expected.push(0); // tombstone
    expected.extend_from_slice(&1u64.to_le_bytes()); // value_len
    expected.push(b'a');
    expected.push(b'b');
    expected.extend_from_slice(&1u128.to_le_bytes()); // timestamp
    assert_eq!(bytes, expected);
}

#[test]
fn truncated_tail_ends_replay_without_error() {
    let mut bytes = encode_set(b"first", b"1", 7);
    let mut second = encode_set(b"second", b"2", 8);
    second.truncate(second.len() - 3); // a crash-interrupted trailing write
    bytes.extend_from_slice(&second);
    let entries = decode_stream(&bytes);
    assert_eq!(entries.len(), 1);
    assert_eq!(entries[0].key, b"first");
}

#[test]
fn recovery_replays_wal_files_in_order() {
    // A.wal (timestamp 100): set("x", 1); B.wal (timestamp 200): delete("x").
    let a_wal = encode_set(b"x", b"1", 100);
    let b_wal = encode_delete(b"x", 200);
    let files = vec![a_wal.clone(), b_wal.clone()];
    let (new_wal, tbl) = replay(&files);
    let e = tbl.get(b"x").unwrap();
    assert!(e.deleted, "the later tombstone must shadow the older set");
    // The coalesced WAL holds both entries, replayed in order.
    let mut expected = a_wal;
    expected.extend_from_slice(&b_wal);
    assert_eq!(new_wal, expected);
}

#[test]
fn recovery_skips_corrupt_file_and_recovers_the_rest() {
    let junk = vec![0xffu8; 5];
    let good = encode_set(b"y", b"2", 300);
    let (_, tbl) = replay(&vec![junk, good]);
    let e = tbl.get(b"y").unwrap();
    assert_eq!(e.value.as_ref().unwrap(), b"2");
}

#[test]
fn replay_of_nothing_gives_an_empty_memtable() {
    let files: Vec<Vec<u8>> = Vec::new();
    let (new_wal, tbl) = replay(&files);
    assert!(new_wal.is_empty());
    assert!(tbl.is_empty());
    assert!(MemTable::new().get(b"nope").is_none());
}
