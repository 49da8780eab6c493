//! Write-ahead log replay: the recovery path that rebuilds a MemTable from
//! the contents of every `.wal` file in a data directory (already sorted by
//! their timestamp-derived filenames) and coalesces their records into one
//! fresh log.
//!
//! Opening, reading, rewriting and deleting the files themselves is the
//! host's part; this module turns the bytes read into the recovered state
//! and into the bytes of the replacement log.

use vstd::prelude::*;
use crate::record::RecordModel;
use crate::codec::{spec_encode_record, spec_decode_stream, decode_stream, append_record};
use crate::memtable::{MemTable, spec_upsert};

verus! {

/// The serialized form of a run of records, in order.
pub open spec fn spec_encode_records(rs: Seq<RecordModel>) -> Seq<u8>
    decreases rs.len(),
{
    if rs.len() == 0 {
        Seq::<u8>::empty()
    } else {
        spec_encode_record(rs[0]) + spec_encode_records(rs.subrange(1, rs.len() as int))
    }
}

/// Apply a run of records to a MemTable model, in order (sets and deletes
/// alike are upserts of the record).
pub open spec fn spec_apply_all(m: Seq<RecordModel>, rs: Seq<RecordModel>) -> Seq<RecordModel>
    decreases rs.len(),
{
    if rs.len() == 0 {
        m
    } else {
        spec_apply_all(spec_upsert(m, rs[0]), rs.subrange(1, rs.len() as int))
    }
}

/// All records decodable from a run of WAL files, in file order.
pub open spec fn spec_wal_records(files: Seq<Seq<u8>>) -> Seq<RecordModel>
    decreases files.len(),
{
    if files.len() == 0 {
        Seq::<RecordModel>::empty()
    } else {
        spec_decode_stream(files[0], 0) + spec_wal_records(files.subrange(1, files.len() as int))
    }
}

/// Applying a concatenation applies the first run, then the second.
pub proof fn lemma_apply_all_concat(m: Seq<RecordModel>, rs1: Seq<RecordModel>, rs2: Seq<RecordModel>)
    ensures
        spec_apply_all(m, rs1 + rs2) == spec_apply_all(spec_apply_all(m, rs1), rs2),
    decreases rs1.len(),
{
    if rs1.len() == 0 {
        assert(rs1 + rs2 =~= rs2);
    } else {
        assert((rs1 + rs2)[0] == rs1[0]);
        assert((rs1 + rs2).subrange(1, (rs1 + rs2).len() as int) =~= rs1.subrange(
            1,
            rs1.len() as int,
        ) + rs2);
        lemma_apply_all_concat(spec_upsert(m, rs1[0]), rs1.subrange(1, rs1.len() as int), rs2);
    }
}

/// Serializing a concatenation concatenates the serializations.
pub proof fn lemma_encode_records_concat(rs1: Seq<RecordModel>, rs2: Seq<RecordModel>)
    ensures
        spec_encode_records(rs1 + rs2) == spec_encode_records(rs1) + spec_encode_records(rs2),
    decreases rs1.len(),
{
    if rs1.len() == 0 {
        assert(rs1 + rs2 =~= rs2);
        assert(spec_encode_records(rs1) + spec_encode_records(rs2) =~= spec_encode_records(rs2));
    } else {
        assert((rs1 + rs2)[0] == rs1[0]);
        assert((rs1 + rs2).subrange(1, (rs1 + rs2).len() as int) =~= rs1.subrange(
            1,
            rs1.len() as int,
        ) + rs2);
        lemma_encode_records_concat(rs1.subrange(1, rs1.len() as int), rs2);
        assert(spec_encode_records(rs1 + rs2) =~= spec_encode_records(rs1) + spec_encode_records(
            rs2,
        ));
    }
}

/// One more file appends its decoded records.
pub proof fn lemma_wal_records_snoc(files: Seq<Seq<u8>>, f: Seq<u8>)
    ensures
        spec_wal_records(files.push(f)) == spec_wal_records(files) + spec_decode_stream(f, 0),
    decreases files.len(),
{
    if files.len() == 0 {
        assert(files.push(f)[0] == f);
        assert(files.push(f).subrange(1, 1).len() == 0);
        assert(spec_wal_records(files.push(f).subrange(1, 1)).len() == 0);
        assert(spec_wal_records(files.push(f)) =~= spec_decode_stream(f, 0));
        assert(spec_wal_records(files) + spec_decode_stream(f, 0) =~= spec_decode_stream(f, 0));
    } else {
        assert(files.push(f)[0] == files[0]);
        assert(files.push(f).subrange(1, files.len() as int + 1) =~= files.subrange(
            1,
            files.len() as int,
        ).push(f));
        lemma_wal_records_snoc(files.subrange(1, files.len() as int), f);
        assert(spec_wal_records(files.push(f)) =~= spec_wal_records(files) + spec_decode_stream(
            f,
            0,
        ));
    }
}

/// Applying one record is one upsert.
pub proof fn lemma_apply_all_one(m: Seq<RecordModel>, r: RecordModel)
    ensures
        spec_apply_all(m, seq![r]) == spec_upsert(m, r),
{
    assert(seq![r].subrange(1, 1).len() == 0);
    assert(spec_apply_all(spec_upsert(m, r), seq![r].subrange(1, 1)) == spec_upsert(m, r));
}

/// Serializing one record is its encoding.
pub proof fn lemma_encode_records_one(r: RecordModel)
    ensures
        spec_encode_records(seq![r]) == spec_encode_record(r),
{
    assert(seq![r].subrange(1, 1).len() == 0);
    assert(spec_encode_records(seq![r].subrange(1, 1)).len() == 0);
    assert(spec_encode_records(seq![r]) =~= spec_encode_record(r));
}

/// A non-empty run serializes to at least one record's fixed fields.
pub proof fn lemma_encode_records_pos(rs: Seq<RecordModel>)
    ensures
        rs.len() > 0 ==> spec_encode_records(rs).len() >= 25,
        rs.len() == 0 ==> spec_encode_records(rs).len() == 0,
{
    if rs.len() > 0 {
        crate::codec::lemma_encode_record_len(rs[0]);
    }
}

/// Replay the contents of the WAL files of a directory, in filename
/// (timestamp) order, into a fresh MemTable, re-appending every replayed
/// record into the bytes of one coalescing replacement WAL. A truncated or
/// corrupt tail of any one file ends that file's replay and the rest of the
/// files are still recovered.
pub fn replay(files: &Vec<Vec<u8>>) -> (r: (Vec<u8>, MemTable))
    ensures
        r.1.wf(),
        r.1@ == spec_apply_all(
            Seq::<RecordModel>::empty(),
            spec_wal_records(files@.map_values(|f: Vec<u8>| f@)),
        ),
        r.0@ == spec_encode_records(spec_wal_records(files@.map_values(|f: Vec<u8>| f@))),
{
    let ghost fviews = files@.map_values(|f: Vec<u8>| f@);
    let mut tbl = MemTable::new();
    let mut out: Vec<u8> = Vec::new();
    let mut fi: usize = 0;
    while fi < files.len()
        invariant
            fi <= files.len(),
            fviews == files@.map_values(|f: Vec<u8>| f@),
            fviews.len() == files@.len(),
            tbl.wf(),
            tbl@ == spec_apply_all(
                Seq::<RecordModel>::empty(),
                spec_wal_records(fviews.subrange(0, fi as int)),
            ),
            out@ == spec_encode_records(spec_wal_records(fviews.subrange(0, fi as int))),
        decreases files.len() - fi,
    {
        let ghost done = spec_wal_records(fviews.subrange(0, fi as int));
        let entries = decode_stream(files[fi].as_slice());
        let ghost stream = spec_decode_stream(fviews[fi as int], 0);
        proof {
            assert(fviews[fi as int] == files@[fi as int]@);
            assert(entries@.map_values(|e: crate::record::WALEntry| e@) == stream);
        }
        let ghost tbl_start = tbl@;
        let ghost out_start = out@;
        let mut ei: usize = 0;
        while ei < entries.len()
            invariant
                ei <= entries.len(),
                tbl.wf(),
                entries@.map_values(|e: crate::record::WALEntry| e@) == stream,
                forall|i: int| 0 <= i < entries@.len() ==> (#[trigger] entries@[i]@).wf(),
                tbl@ == spec_apply_all(tbl_start, stream.subrange(0, ei as int)),
                out@ == out_start + spec_encode_records(stream.subrange(0, ei as int)),
            decreases entries.len() - ei,
        {
            let e = &entries[ei];
            proof {
                assert(e@ == stream[ei as int]);
            }
            let ghost prefix = stream.subrange(0, ei as int);
            if e.deleted {
                tbl.delete(e.key.as_slice(), e.timestamp);
                proof {
                    assert(crate::memtable::spec_tombstone(e.key@, e.timestamp) == e@);
                }
            } else {
                match &e.value {
                    Option::Some(v) => {
                        tbl.set(e.key.as_slice(), v.as_slice(), e.timestamp);
                        proof {
                            assert(crate::memtable::spec_set_record(e.key@, v@, e.timestamp)
                                == e@);
                        }
                    }
                    Option::None => {
                        proof {
                            assert(e@.wf());
                            assert(false);
                        }
                    }
                }
            }
            append_record(&mut out, e.key.as_slice(), &e.value, e.timestamp, e.deleted);
            proof {
                assert(stream.subrange(0, ei + 1) =~= prefix + seq![e@]);
                lemma_apply_all_concat(tbl_start, prefix, seq![e@]);
                lemma_apply_all_one(spec_apply_all(tbl_start, prefix), e@);
                lemma_encode_records_concat(prefix, seq![e@]);
                lemma_encode_records_one(e@);
            }
            ei = ei + 1;
        }
        proof {
            assert(stream.subrange(0, entries@.len() as int) =~= stream);
            assert(fviews.subrange(0, fi + 1) =~= fviews.subrange(0, fi as int).push(
                fviews[fi as int],
            ));
            lemma_wal_records_snoc(fviews.subrange(0, fi as int), fviews[fi as int]);
            lemma_apply_all_concat(Seq::<RecordModel>::empty(), done, stream);
            lemma_encode_records_concat(done, stream);
        }
        fi = fi + 1;
    }
    proof {
        assert(fviews.subrange(0, files@.len() as int) =~= fviews);
    }
    (out, tbl)
}

} // verus!
