use lsm_core::get_current_timestamp;
use lsm_core::memtable::MemTable;
use lsm_core::MEM_TABLE_SIZE;

#[test]
fn it_works() {
    let result = 2 + 2;
    assert_eq!(result, 4);
}

#[test]
fn test_get_set() {
    let mut tbl = MemTable::new();
    let kv = (
        "Alice".as_bytes(),
        "Works as a product manager at Google".as_bytes(),
    );
    let ts = get_current_timestamp();
    tbl.set(kv.0, kv.1, ts);

    let actual = tbl.get(kv.0).unwrap();
    assert_eq!(actual.value.as_ref().unwrap(), kv.1);
}

#[test]
fn test_multi_set_get() {
    let mut tbl = MemTable::new();
    let records = vec![
        ("Carl", "Works as a kernel engineer at Google"),
        ("Bob", "Works as reliability engineer at GCP"),
        ("Alice", "Works as a product manager at Google"),
    ];

    for record in records.iter() {
        tbl.set(
            record.0.as_bytes(),
            record.1.as_bytes(),
            get_current_timestamp(),
        );
    }

    assert_eq!(tbl.cap(), MEM_TABLE_SIZE);
    assert_eq!(tbl.len(), 3);
    // ensure keys are stored in order
    for (actual, expected) in tbl.entries().iter().zip(records.iter().rev()) {
        assert_eq!(actual.key, expected.0.as_bytes());
    }
}

#[test]
fn memtable_ordering_after_mixed_mutations() {
    let mut tbl = MemTable::new();
    let keys: [&[u8]; 7] = [b"pear", b"apple", b"fig", b"kiwi", b"apple", b"zuc", b"fig"];
    let mut ts: u128 = 1;
    for k in keys.iter() {
        tbl.set(k, b"v", ts);
        ts += 1;
    }
    tbl.delete(b"kiwi", ts);
    tbl.delete(b"mango", ts + 1);
    let entries = tbl.entries();
    assert_eq!(entries.len(), 6);
    for w in entries.windows(2) {
        assert!(w[0].key < w[1].key, "entries must ascend strictly by key");
    }
}

#[test]
fn memtable_tombstone_shadows_newer_timestamp() {
    let mut tbl = MemTable::new();
    tbl.set(b"k", b"v1", 10);
    tbl.delete(b"k", 20);
    let e = tbl.get(b"k").unwrap();
    assert!(e.deleted);
    assert!(e.value.is_none());
    assert_eq!(e.timestamp, 20);
}

#[test]
fn memtable_last_call_wins_on_reversed_timestamps() {
    // The MemTable applies mutations in call order, not timestamp order:
    // a set after a delete is visible even with an older timestamp.
    let mut tbl = MemTable::new();
    tbl.delete(b"k", 20);
    tbl.set(b"k", b"v1", 10);
    let e = tbl.get(b"k").unwrap();
    assert!(!e.deleted);
    assert_eq!(e.value.as_ref().unwrap(), b"v1");
    assert_eq!(e.timestamp, 10);

    let mut tbl2 = MemTable::new();
    tbl2.set(b"k", b"v1", 30);
    tbl2.delete(b"k", 20);
    let e2 = tbl2.get(b"k").unwrap();
    assert!(e2.deleted, "a later delete call shadows an older-call set even with a smaller timestamp");
}

#[test]
fn memtable_size_tracking() {
    let mut tbl = MemTable::new();
    assert!(tbl.is_empty());
    assert_eq!(tbl.size(), 0);
    tbl.set(b"ab", b"xyz", 1);
    // key (2) + value (3) + timestamp (16) + tombstone flag (1)
    assert_eq!(tbl.size(), 2 + 3 + 16 + 1);
    tbl.set(b"ab", b"xy", 2);
    assert_eq!(tbl.size(), 2 + 2 + 16 + 1);
    tbl.delete(b"ab", 3);
    assert_eq!(tbl.size(), 2 + 16 + 1);
    // Overwriting a tombstone grows the size by the new value's length:
    // the value-length delta over an absent (zero-length) old value.
    tbl.set(b"ab", b"xyz", 4);
    assert_eq!(tbl.size(), 2 + 3 + 16 + 1);
    assert!(!tbl.is_empty());
}
