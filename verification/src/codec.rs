//! The wire-exact binary layout of one record, shared by WAL files and the
//! data block of segment files (little-endian throughout):
//!
//! `key_len:8B | tombstone:1B | [value_len:8B if not tombstone] | key bytes |
//! [value bytes if not tombstone] | timestamp:16B`
//!
//! Decoding stops without error at the first malformed or truncated record:
//! a partial tail is evidence of a crash-interrupted write, not corruption
//! worth aborting over.

use vstd::prelude::*;
use vstd::bytes::{
    spec_u64_to_le_bytes, spec_u64_from_le_bytes, u64_to_le_bytes, u64_from_le_bytes,
    spec_u128_to_le_bytes, spec_u128_from_le_bytes, u128_to_le_bytes, u128_from_le_bytes,
    lemma_auto_spec_u64_to_from_le_bytes, lemma_auto_spec_u128_to_from_le_bytes,
};
use crate::record::{RecordModel, WALEntry};

verus! {

/// The exact bytes one record serializes to.
pub open spec fn spec_encode_record(r: RecordModel) -> Seq<u8> {
    spec_u64_to_le_bytes(r.key.len() as u64) + seq![if r.deleted { 1u8 } else { 0u8 }] + (match r.value {
        Option::Some(v) => spec_u64_to_le_bytes(v.len() as u64),
        Option::None => Seq::<u8>::empty(),
    }) + r.key + (match r.value {
        Option::Some(v) => v,
        Option::None => Seq::<u8>::empty(),
    }) + spec_u128_to_le_bytes(r.timestamp)
}

/// The result of decoding one record at a byte offset: the record and the
/// offset just past it, or nothing when the bytes there are malformed or
/// truncated.
pub open spec fn spec_decode_record(s: Seq<u8>, pos: int) -> Option<(RecordModel, int)> {
    if pos < 0 || pos + 9 > s.len() {
        Option::None
    } else {
        let klen = spec_u64_from_le_bytes(s.subrange(pos, pos + 8)) as int;
        let deleted = s[pos + 8] != 0;
        if deleted {
            if pos + 9 + klen + 16 > s.len() {
                Option::None
            } else {
                Option::Some(
                    (
                        RecordModel {
                            key: s.subrange(pos + 9, pos + 9 + klen),
                            value: Option::None,
                            timestamp: spec_u128_from_le_bytes(
                                s.subrange(pos + 9 + klen, pos + 9 + klen + 16),
                            ),
                            deleted: true,
                        },
                        pos + 9 + klen + 16,
                    ),
                )
            }
        } else {
            if pos + 17 > s.len() {
                Option::None
            } else {
                let vlen = spec_u64_from_le_bytes(s.subrange(pos + 9, pos + 17)) as int;
                if pos + 17 + klen + vlen + 16 > s.len() {
                    Option::None
                } else {
                    Option::Some(
                        (
                            RecordModel {
                                key: s.subrange(pos + 17, pos + 17 + klen),
                                value: Option::Some(
                                    s.subrange(pos + 17 + klen, pos + 17 + klen + vlen),
                                ),
                                timestamp: spec_u128_from_le_bytes(
                                    s.subrange(
                                        pos + 17 + klen + vlen,
                                        pos + 17 + klen + vlen + 16,
                                    ),
                                ),
                                deleted: false,
                            },
                            pos + 17 + klen + vlen + 16,
                        ),
                    )
                }
            }
        }
    }
}

/// Append one record's serialized bytes to a buffer.
pub fn append_record(
    out: &mut Vec<u8>,
    key: &[u8],
    value: &Option<Vec<u8>>,
    timestamp: u128,
    deleted: bool,
)
    requires
        deleted <==> value is None,
    ensures
        final(out)@ == old(out)@ + spec_encode_record(
            RecordModel {
                key: key@,
                value: match *value {
                    Option::Some(v) => Option::Some(v@),
                    Option::None => Option::None,
                },
                timestamp,
                deleted,
            },
        ),
{
    let ghost r = RecordModel {
        key: key@,
        value: match value {
            Option::Some(v) => Option::Some(v@),
            Option::None => Option::None,
        },
        timestamp,
        deleted,
    };
    let mut klen_bytes = u64_to_le_bytes(key.len() as u64);
    out.append(&mut klen_bytes);
    out.push(if deleted { 1u8 } else { 0u8 });
    match value {
        Option::Some(v) => {
            let mut vlen_bytes = u64_to_le_bytes(v.len() as u64);
            out.append(&mut vlen_bytes);
        }
        Option::None => {}
    }
    let mut key_bytes = vstd::slice::slice_to_vec(key);
    out.append(&mut key_bytes);
    match value {
        Option::Some(v) => {
            let mut val_bytes = vstd::slice::slice_to_vec(v.as_slice());
            out.append(&mut val_bytes);
        }
        Option::None => {}
    }
    let mut ts_bytes = u128_to_le_bytes(timestamp);
    out.append(&mut ts_bytes);
    proof {
        assert(final(out)@ =~= old(out)@ + spec_encode_record(r));
    }
}

/// Serialize a `set` mutation: the bytes the WAL appends for it.
pub fn encode_set(key: &[u8], value: &[u8], timestamp: u128) -> (r: Vec<u8>)
    ensures
        r@ == spec_encode_record(crate::memtable::spec_set_record(key@, value@, timestamp)),
{
    let mut out: Vec<u8> = Vec::new();
    let owned = Option::Some(vstd::slice::slice_to_vec(value));
    append_record(&mut out, key, &owned, timestamp, false);
    out
}

/// Serialize a `delete` mutation: the bytes the WAL appends for it.
pub fn encode_delete(key: &[u8], timestamp: u128) -> (r: Vec<u8>)
    ensures
        r@ == spec_encode_record(crate::memtable::spec_tombstone(key@, timestamp)),
{
    let mut out: Vec<u8> = Vec::new();
    append_record(&mut out, key, &Option::None, timestamp, true);
    out
}

/// Decode the record at `pos`, returning it with the offset just past it.
pub fn decode_record(bytes: &[u8], pos: usize) -> (r: Option<(WALEntry, usize)>)
    requires
        pos <= bytes@.len(),
    ensures
        match r {
            Option::Some(p) => {
                &&& spec_decode_record(bytes@, pos as int) == Option::Some(
                    (p.0@, p.1 as int),
                )
                &&& p.0@.wf()
                &&& pos < p.1 <= bytes@.len()
            },
            Option::None => spec_decode_record(bytes@, pos as int) is None,
        },
{
    let len = bytes.len();
    if len - pos < 9 {
        return Option::None;
    }
    let klen_slice = vstd::slice::slice_subrange(bytes, pos, pos + 8);
    let klen = u64_from_le_bytes(klen_slice);
    let deleted = *vstd::slice::slice_index_get(bytes, pos + 8) != 0;
    if deleted {
        let rest = len - (pos + 9);
        if klen > rest as u64 {
            return Option::None;
        }
        let klen_us = klen as usize;
        if rest - klen_us < 16 {
            return Option::None;
        }
        let key_start = pos + 9;
        let key = vstd::slice::slice_to_vec(
            vstd::slice::slice_subrange(bytes, key_start, key_start + klen_us),
        );
        let ts_slice = vstd::slice::slice_subrange(
            bytes,
            key_start + klen_us,
            key_start + klen_us + 16,
        );
        let ts = u128_from_le_bytes(ts_slice);
        let entry = WALEntry { key, value: Option::None, timestamp: ts, deleted: true };
        Option::Some((entry, key_start + klen_us + 16))
    } else {
        if len - pos < 17 {
            return Option::None;
        }
        let vlen_slice = vstd::slice::slice_subrange(bytes, pos + 9, pos + 17);
        let vlen = u64_from_le_bytes(vlen_slice);
        let rest = len - (pos + 17);
        if klen > rest as u64 {
            return Option::None;
        }
        let klen_us = klen as usize;
        if vlen > (rest - klen_us) as u64 {
            return Option::None;
        }
        let vlen_us = vlen as usize;
        if rest - klen_us - vlen_us < 16 {
            return Option::None;
        }
        let key_start = pos + 17;
        let key = vstd::slice::slice_to_vec(
            vstd::slice::slice_subrange(bytes, key_start, key_start + klen_us),
        );
        let val_start = key_start + klen_us;
        let val = vstd::slice::slice_to_vec(
            vstd::slice::slice_subrange(bytes, val_start, val_start + vlen_us),
        );
        let ts_slice = vstd::slice::slice_subrange(bytes, val_start + vlen_us, val_start + vlen_us + 16);
        let ts = u128_from_le_bytes(ts_slice);
        let entry = WALEntry {
            key,
            value: Option::Some(val),
            timestamp: ts,
            deleted: false,
        };
        Option::Some((entry, val_start + vlen_us + 16))
    }
}

/// Round trip: the bytes of an encoded record, wherever they sit in a
/// stream, decode back to the identical key, value or absence, timestamp
/// and tombstone flag — for all keys and values, empty ones included.
pub proof fn lemma_record_round_trip(r: RecordModel, s: Seq<u8>, pos: int)
    requires
        r.wf(),
        r.key.len() <= u64::MAX,
        (r.value is Some ==> r.value->0.len() <= u64::MAX),
        0 <= pos,
        pos + spec_encode_record(r).len() <= s.len(),
        s.subrange(pos, pos + spec_encode_record(r).len()) == spec_encode_record(r),
    ensures
        spec_decode_record(s, pos) == Option::Some((r, pos + spec_encode_record(r).len())),
{
    lemma_auto_spec_u64_to_from_le_bytes();
    lemma_auto_spec_u128_to_from_le_bytes();
    let enc = spec_encode_record(r);
    let e = s.subrange(pos, pos + enc.len());
    assert forall|i: int| 0 <= i < enc.len() implies s[pos + i] == enc[i] by {
        assert(e[i] == s[pos + i]);
    }
    match r.value {
        Option::None => {
            let a = spec_u64_to_le_bytes(r.key.len() as u64);
            let ts = spec_u128_to_le_bytes(r.timestamp);
            let klen = r.key.len() as int;
            assert(a.len() == 8 && ts.len() == 16);
            assert(enc =~= a + seq![1u8] + r.key + ts);
            assert(enc.len() == 9 + klen + 16);
            assert(forall|i: int| 0 <= i < 8 ==> enc[i] == a[i]);
            assert(enc[8] == 1u8);
            assert(forall|i: int| 0 <= i < klen ==> enc[9 + i] == r.key[i]);
            assert(forall|i: int| 0 <= i < 16 ==> enc[9 + klen + i] == ts[i]);
            assert(s.subrange(pos, pos + 8) =~= a);
            assert(s[pos + 8] == 1u8);
            assert(s.subrange(pos + 9, pos + 9 + klen) =~= r.key);
            assert(s.subrange(pos + 9 + klen, pos + 9 + klen + 16) =~= ts);
        }
        Option::Some(v) => {
            let a = spec_u64_to_le_bytes(r.key.len() as u64);
            let b = spec_u64_to_le_bytes(v.len() as u64);
            let ts = spec_u128_to_le_bytes(r.timestamp);
            let klen = r.key.len() as int;
            let vlen = v.len() as int;
            assert(a.len() == 8 && b.len() == 8 && ts.len() == 16);
            assert(enc =~= a + seq![0u8] + b + r.key + v + ts);
            assert(enc.len() == 17 + klen + vlen + 16);
            assert(forall|i: int| 0 <= i < 8 ==> enc[i] == a[i]);
            assert(enc[8] == 0u8);
            assert(forall|i: int| 0 <= i < 8 ==> enc[9 + i] == b[i]);
            assert(forall|i: int| 0 <= i < klen ==> enc[17 + i] == r.key[i]);
            assert(forall|i: int| 0 <= i < vlen ==> enc[17 + klen + i] == v[i]);
            assert(forall|i: int| 0 <= i < 16 ==> enc[17 + klen + vlen + i] == ts[i]);
            assert(s.subrange(pos, pos + 8) =~= a);
            assert(s[pos + 8] == 0u8);
            assert(s.subrange(pos + 9, pos + 17) =~= b);
            assert(s.subrange(pos + 17, pos + 17 + klen) =~= r.key);
            assert(s.subrange(pos + 17 + klen, pos + 17 + klen + vlen) =~= v);
            assert(s.subrange(pos + 17 + klen + vlen, pos + 17 + klen + vlen + 16) =~= ts);
        }
    }
}

/// The bytes a decoded record was read from are exactly its canonical
/// serialization, provided its tombstone byte is canonical (0 or 1).
pub proof fn lemma_decode_canonical(s: Seq<u8>, pos: int)
    requires
        spec_decode_record(s, pos) is Some,
        s[pos + 8] == 0u8 || s[pos + 8] == 1u8,
    ensures
        ({
            let p = spec_decode_record(s, pos)->Some_0;
            &&& s.subrange(pos, p.1) == spec_encode_record(p.0)
            &&& p.1 - pos == spec_encode_record(p.0).len()
            &&& p.0.wf()
            &&& pos + 25 <= p.1 <= s.len()
        }),
{
    lemma_auto_spec_u64_to_from_le_bytes();
    lemma_auto_spec_u128_to_from_le_bytes();
    let p = spec_decode_record(s, pos)->Some_0;
    let r = p.0;
    let np = p.1;
    let a = s.subrange(pos, pos + 8);
    if r.deleted {
        let klen = r.key.len() as int;
        let ts = s.subrange(pos + 9 + klen, np);
        assert(spec_u64_from_le_bytes(a) as int == klen);
        assert(spec_u64_to_le_bytes(r.key.len() as u64) == a);
        assert(spec_u128_to_le_bytes(r.timestamp) == ts);
        assert(s[pos + 8] == 1u8);
        assert(spec_encode_record(r) =~= a + seq![1u8] + r.key + ts);
        assert(s.subrange(pos, np) =~= a + seq![s[pos + 8]] + r.key + ts);
    } else {
        let klen = r.key.len() as int;
        let v = r.value->0;
        let vlen = v.len() as int;
        let b = s.subrange(pos + 9, pos + 17);
        let ts = s.subrange(pos + 17 + klen + vlen, np);
        assert(spec_u64_from_le_bytes(a) as int == klen);
        assert(spec_u64_to_le_bytes(r.key.len() as u64) == a);
        assert(spec_u64_from_le_bytes(b) as int == vlen);
        assert(spec_u64_to_le_bytes(v.len() as u64) == b);
        assert(spec_u128_to_le_bytes(r.timestamp) == ts);
        assert(s[pos + 8] == 0u8);
        assert(spec_encode_record(r) =~= a + seq![0u8] + b + r.key + v + ts);
        assert(s.subrange(pos, np) =~= a + seq![s[pos + 8]] + b + r.key + v + ts);
    }
}

/// Records whose lengths fit the 8-byte length fields, each well formed:
/// the runs a segment file can actually hold.
pub open spec fn records_bounded_wf(rs: Seq<RecordModel>) -> bool {
    forall|i: int| 0 <= i < rs.len() ==> {
        let r = #[trigger] rs[i];
        &&& r.wf()
        &&& r.key.len() <= u64::MAX
        &&& (r.value is Some ==> r.value->0.len() <= u64::MAX)
    }
}

/// Every record serializes to at least its fixed fields.
pub proof fn lemma_encode_record_len(r: RecordModel)
    ensures
        spec_encode_record(r).len() >= 25,
        r.value is Some ==> spec_encode_record(r).len() == 33 + r.key.len() + r.value->0.len(),
        r.value is None ==> spec_encode_record(r).len() == 25 + r.key.len(),
{
    lemma_auto_spec_u64_to_from_le_bytes();
    lemma_auto_spec_u128_to_from_le_bytes();
}

/// A serialized run of records determines its first record: wherever the
/// run's bytes sit in a stream, decoding at their start yields exactly the
/// run's head, canonical tombstone byte and all, with the rest of the run
/// following.
pub proof fn lemma_decode_first(s: Seq<u8>, pos: int, rs: Seq<RecordModel>)
    requires
        records_bounded_wf(rs),
        rs.len() > 0,
        0 <= pos,
        pos + crate::wal::spec_encode_records(rs).len() <= s.len(),
        s.subrange(pos, pos + crate::wal::spec_encode_records(rs).len())
            == crate::wal::spec_encode_records(rs),
    ensures
        spec_decode_record(s, pos) == Option::Some(
            (rs[0], pos + spec_encode_record(rs[0]).len()),
        ),
        s[pos + 8] == 0u8 || s[pos + 8] == 1u8,
        spec_encode_record(rs[0]).len() <= crate::wal::spec_encode_records(rs).len(),
        crate::wal::spec_encode_records(rs).len() - spec_encode_record(rs[0]).len()
            == crate::wal::spec_encode_records(rs.subrange(1, rs.len() as int)).len(),
        s.subrange(
            pos + spec_encode_record(rs[0]).len(),
            pos + crate::wal::spec_encode_records(rs).len(),
        ) == crate::wal::spec_encode_records(rs.subrange(1, rs.len() as int)),
{
    lemma_auto_spec_u64_to_from_le_bytes();
    let all = crate::wal::spec_encode_records(rs);
    let e0 = spec_encode_record(rs[0]);
    let rest = crate::wal::spec_encode_records(rs.subrange(1, rs.len() as int));
    assert(all == e0 + rest);
    assert(s.subrange(pos, pos + e0.len()) =~= e0) by {
        assert forall|i: int| 0 <= i < e0.len() implies s.subrange(pos, pos + e0.len())[i]
            == e0[i] by {
            assert(s.subrange(pos, pos + all.len())[i] == (e0 + rest)[i]);
        }
    }
    lemma_record_round_trip(rs[0], s, pos);
    assert(e0[8] == (if rs[0].deleted { 1u8 } else { 0u8 })) by {
        let a = spec_u64_to_le_bytes(rs[0].key.len() as u64);
        assert(a.len() == 8);
    }
    assert(s[pos + 8] == e0[8]) by {
        assert(s.subrange(pos, pos + e0.len())[8] == s[pos + 8]);
    }
    assert(s.subrange(pos + e0.len(), pos + all.len()) =~= rest) by {
        assert forall|i: int| 0 <= i < rest.len() implies s.subrange(
            pos + e0.len(),
            pos + all.len(),
        )[i] == rest[i] by {
            assert(s.subrange(pos, pos + all.len())[e0.len() + i] == (e0 + rest)[e0.len() + i]);
        }
    }
}

/// The records readable from a byte stream, in order, stopping at the first
/// malformed or truncated tail.
pub open spec fn spec_decode_stream(s: Seq<u8>, pos: int) -> Seq<RecordModel>
    decreases s.len() - pos when 0 <= pos <= s.len()
{
    match spec_decode_record(s, pos) {
        Option::None => Seq::<RecordModel>::empty(),
        Option::Some(p) => seq![p.0] + spec_decode_stream(s, p.1),
    }
}

/// Read every well-formed record from the start of a byte stream; a
/// truncated or malformed tail ends the replay without error.
pub fn decode_stream(bytes: &[u8]) -> (r: Vec<WALEntry>)
    ensures
        r@.map_values(|e: WALEntry| e@) == spec_decode_stream(bytes@, 0),
        forall|i: int| 0 <= i < r@.len() ==> (#[trigger] r@[i]@).wf(),
{
    let mut out: Vec<WALEntry> = Vec::new();
    let mut pos: usize = 0;
    loop
        invariant
            pos <= bytes@.len(),
            out@.map_values(|e: WALEntry| e@) + spec_decode_stream(bytes@, pos as int)
                == spec_decode_stream(bytes@, 0),
            forall|i: int| 0 <= i < out@.len() ==> (#[trigger] out@[i]@).wf(),
        decreases bytes@.len() - pos,
    {
        match decode_record(bytes, pos) {
            Option::None => {
                proof {
                    assert(spec_decode_stream(bytes@, pos as int) =~= Seq::<RecordModel>::empty());
                    assert(out@.map_values(|e: WALEntry| e@) =~= spec_decode_stream(bytes@, 0));
                }
                return out;
            }
            Option::Some(p) => {
                let (entry, next) = p;
                let ghost prev = out@;
                out.push(entry);
                proof {
                    assert(out@.map_values(|e: WALEntry| e@) =~= prev.map_values(
                        |e: WALEntry| e@,
                    ) + seq![entry@]);
                    assert(spec_decode_stream(bytes@, pos as int) == seq![entry@]
                        + spec_decode_stream(bytes@, next as int));
                    assert(out@.map_values(|e: WALEntry| e@) + spec_decode_stream(
                        bytes@,
                        next as int,
                    ) =~= spec_decode_stream(bytes@, 0));
                }
                pos = next;
            }
        }
    }
}

} // verus!
