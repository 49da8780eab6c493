use lsm_core::compact::{merge_records, merge_segments};
use lsm_core::memtable::MemTable;
use lsm_core::record::SSTableRecord;
use lsm_core::sstable::SSTable;

fn rec(key: &[u8], value: Option<&[u8]>, timestamp: u128) -> SSTableRecord {
    SSTableRecord {
        key: key.to_vec(),
        value: value.map(|v| v.to_vec()),
        timestamp,
        deleted: value.is_none(),
    }
}

#[test]
fn segment_round_trip_through_get() {
    let mut tbl = MemTable::new();
    tbl.set(b"a", b"1", 1);
    tbl.set(b"b", b"2", 2);
    tbl.set(b"c", b"3", 3);
    let seg = SSTable::flush(7, &tbl);
    assert_eq!(seg.metadata.id, 7);
    assert_eq!(seg.metadata.num_entries, 3);
    assert_eq!(seg.metadata.first_key, b"a");
    assert_eq!(seg.metadata.last_key, b"c");
    for (k, v) in [(b"a", b"1"), (b"b", b"2"), (b"c", b"3")] {
        let r = seg.get(k).unwrap();
        assert_eq!(r.value.as_ref().unwrap(), v);
    }
    // Both the filter-negative path and the sparse-index miss path answer
    // absent for a key never inserted.
    assert!(seg.get(b"zz").is_none());
    assert!(seg.get(b"aa").is_none());
}

#[test]
fn segment_file_round_trip() {
    let mut tbl = MemTable::new();
    for i in 0..100u32 {
        let key = format!("key{:04}", i);
        let val = format!("value{}", i);
        tbl.set(key.as_bytes(), val.as_bytes(), i as u128);
    }
    let seg = SSTable::flush(9, &tbl);
    let bytes = seg.encode();
    let back = SSTable::decode(&bytes).expect("a canonical segment file must parse");
    assert_eq!(back.metadata.id, 9);
    assert_eq!(back.metadata.num_entries, 100);
    assert_eq!(back.len(), 100);
    for i in 0..100u32 {
        let key = format!("key{:04}", i);
        let r = back.get(key.as_bytes()).unwrap();
        assert_eq!(r.value.as_ref().unwrap().as_slice(), format!("value{}", i).as_bytes());
        assert_eq!(r.timestamp, i as u128);
    }
    assert!(back.get(b"key9999").is_none());
    // Re-encoding the parsed segment reproduces the identical file.
    assert_eq!(back.encode(), bytes);
}

#[test]
fn segment_decode_rejects_malformed_bytes() {
    assert!(SSTable::decode(&Vec::new()).is_none());
    assert!(SSTable::decode(&vec![0u8; 40]).is_none());
    let mut tbl = MemTable::new();
    tbl.set(b"a", b"1", 1);
    let mut bytes = SSTable::flush(1, &tbl).encode();
    bytes.truncate(bytes.len() - 1);
    assert!(SSTable::decode(&bytes).is_none());
}

#[test]
fn filter_never_reports_an_inserted_key_absent() {
    let mut tbl = MemTable::new();
    for i in 0..500u32 {
        let key = format!("present-{}", i);
        tbl.set(key.as_bytes(), b"v", i as u128);
    }
    let seg = SSTable::flush(3, &tbl);
    // Zero false negatives: every inserted key must be found.
    for i in 0..500u32 {
        let key = format!("present-{}", i);
        assert!(seg.get(key.as_bytes()).is_some());
    }
    // False positives are allowed but bounded: the full read path still
    // answers absent, and the observed rate stays small.
    let mut positives = 0u32;
    let sample = 10_000u32;
    for i in 0..sample {
        let key = format!("absent-{}", i);
        if seg.get(key.as_bytes()).is_some() {
            positives += 1;
        }
    }
    assert_eq!(positives, 0, "the full read path never fabricates a record");
    let fp_rate = positives as f64 / sample as f64;
    assert!(fp_rate < 0.05);
}

#[test]
fn compaction_keeps_the_newest_record() {
    let seg1 = SSTable::build(1, vec![rec(b"k", Some(b"v1"), 1)]);
    let seg2 = SSTable::build(2, vec![rec(b"k", Some(b"v2"), 2)]);
    let merged = merge_segments(&seg1, &seg2, 3, false).unwrap();
    assert_eq!(merged.metadata.id, 3);
    assert_eq!(merged.len(), 1);
    let r = merged.get(b"k").unwrap();
    assert_eq!(r.value.as_ref().unwrap(), b"v2");
    assert_eq!(r.timestamp, 2);
}

#[test]
fn compaction_drops_unneeded_tombstones() {
    let seg1 = SSTable::build(1, vec![rec(b"k", Some(b"v1"), 1)]);
    let seg2 = SSTable::build(2, vec![rec(b"k", None, 2)]);
    // With older data retained beneath, the tombstone must be kept.
    let kept = merge_segments(&seg1, &seg2, 3, false).unwrap();
    assert!(kept.get(b"k").unwrap().deleted);
    // At the bottom level the tombstone may be dropped; nothing resurrects.
    assert!(merge_segments(&seg1, &seg2, 4, true).is_none());
}

#[test]
fn merge_interleaves_keys_in_order() {
    let a = vec![
        rec(b"a", Some(b"1"), 1),
        rec(b"c", Some(b"3"), 1),
        rec(b"e", Some(b"5"), 1),
    ];
    let b = vec![rec(b"b", Some(b"2"), 2), rec(b"c", Some(b"30"), 2)];
    let merged = merge_records(&a, &b, false);
    let keys: Vec<&[u8]> = merged.iter().map(|r| r.key.as_slice()).collect();
    assert_eq!(keys, vec![b"a" as &[u8], b"b", b"c", b"e"]);
    assert_eq!(merged[2].value.as_ref().unwrap(), b"30");
}

#[test]
fn merge_breaks_timestamp_ties_toward_the_newer_input() {
    let a = vec![rec(b"k", Some(b"older-input"), 5)];
    let b = vec![rec(b"k", Some(b"newer-input"), 5)];
    let merged = merge_records(&a, &b, false);
    assert_eq!(merged.len(), 1);
    assert_eq!(merged[0].value.as_ref().unwrap(), b"newer-input");
}
