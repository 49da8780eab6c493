//! Immutable sorted segment files (SSTables): the on-disk form of a flushed
//! MemTable. A segment holds the records sorted by key, a sparse index
//! sampling every Nth key with its byte offset in the data block, a
//! membership filter over all keys, and a meta block (id, key range, size,
//! entry count).
//!
//! Segments are write-once: a flush or a compaction builds a new one and
//! never mutates an existing one.

use vstd::prelude::*;
use crate::keys::{lex_lt, compare_keys, KeyOrder};
use crate::keys::{lemma_lex_lt_irrefl, lemma_lex_lt_asym, lemma_lex_lt_trans, lemma_lex_lt_total};
use crate::record::{RecordModel, MemTableEntry, SSTableRecord, sorted_by_key, all_wf, spec_lookup};
use crate::record::{lemma_lookup_at, lemma_lookup_none};
use crate::filter::{BloomFilter, spec_contains};
use crate::codec::{spec_encode_record, spec_decode_record, records_bounded_wf, append_record, decode_record, lemma_decode_canonical};
use vstd::bytes::{
    spec_u64_to_le_bytes, spec_u32_to_le_bytes, spec_u64_from_le_bytes, spec_u32_from_le_bytes,
    u64_to_le_bytes, u64_from_le_bytes, u32_to_le_bytes, u32_from_le_bytes,
    lemma_auto_spec_u64_to_from_le_bytes, lemma_auto_spec_u32_to_from_le_bytes,
};
use crate::filter::FILTER_MAX_WORDS;
use crate::record::{WALEntry, lemma_sorted_from_adjacent};
use crate::wal::{spec_encode_records, lemma_encode_records_concat, lemma_encode_records_one, lemma_encode_records_pos};
use crate::memtable::MemTable;

verus! {

/// Every sparse-index entry names the record at its ordinal, with that
/// record's byte offset in the serialized data block.
pub open spec fn spec_index_facts(ix: Seq<(Seq<u8>, u64, u64)>, rs: Seq<RecordModel>) -> bool {
    forall|j: int| 0 <= j < ix.len() ==> {
        let e = #[trigger] ix[j];
        &&& e.1 < rs.len()
        &&& rs[e.1 as int].key == e.0
        &&& e.2 == spec_encode_records(rs.subrange(0, e.1 as int)).len()
    }
}

/// A consistent segment model: sorted well-formed machine-representable
/// records, a filter of a legal size covering every key, and a sparse
/// index naming true records at their true offsets — what every segment
/// this module builds satisfies, and what its file format can hold.
pub open spec fn spec_segment_consistent(
    rs: Seq<RecordModel>,
    ix: Seq<(Seq<u8>, u64, u64)>,
    ws: Seq<u64>,
) -> bool {
    &&& 0 < rs.len() <= u64::MAX
    &&& sorted_by_key(rs)
    &&& all_wf(rs)
    &&& crate::codec::records_bounded_wf(rs)
    &&& spec_encode_records(rs).len() <= u64::MAX
    &&& ix.len() <= u64::MAX
    &&& 0 < ws.len() <= FILTER_MAX_WORDS
    &&& forall|i: int| 0 <= i < rs.len() ==> spec_contains(ws, (#[trigger] rs[i]).key)
    &&& spec_index_facts(ix, rs)
}

/// Whether a byte string is the canonical file of some consistent segment.
pub open spec fn spec_canonical_segment(bytes: Seq<u8>) -> bool {
    exists|id: u64, rs: Seq<RecordModel>, ix: Seq<(Seq<u8>, u64, u64)>, ws: Seq<u64>|
        spec_segment_consistent(rs, ix, ws) && bytes == spec_encode_sstable(id, rs, ix, ws)
}

/// Every Nth record is sampled into the sparse index.
pub const INDEX_INTERVAL: usize = 16;

/// One sparse-index entry: a sampled key, the ordinal of its record, and
/// the byte offset of that record within the data block.
pub struct IndexEntry {
    pub key: Vec<u8>,
    pub ordinal: u64,
    pub offset: u64,
}

/// Metadata of one segment: unique id, key range, data-block size in
/// bytes, and entry count.
pub struct SSTableMetadata {
    pub id: u64,
    pub first_key: Vec<u8>,
    pub last_key: Vec<u8>,
    pub total_size: u64,
    pub num_entries: u64,
}

/// An immutable sorted segment.
pub struct SSTable {
    pub metadata: SSTableMetadata,
    records: Vec<SSTableRecord>,
    index: Vec<IndexEntry>,
    filter: BloomFilter,
}

impl View for SSTable {
    type V = Seq<RecordModel>;

    closed spec fn view(&self) -> Seq<RecordModel> {
        self.records@.map_values(|r: SSTableRecord| r@)
    }
}

impl SSTable {
    /// The segment's unique id.
    pub closed spec fn spec_id(&self) -> u64 {
        self.metadata.id
    }

    /// The segment's unique id.
    pub fn id(&self) -> (r: u64)
        ensures
            r == self.spec_id(),
    {
        self.metadata.id
    }

    /// The sparse index as (key, ordinal, offset) triples.
    pub closed spec fn spec_index(&self) -> Seq<(Seq<u8>, u64, u64)> {
        self.index@.map_values(|e: IndexEntry| (e.key@, e.ordinal, e.offset))
    }

    /// The membership filter's bit words.
    pub closed spec fn spec_filter(&self) -> Seq<u64> {
        self.filter@
    }

    /// Internal consistency of a segment: records sorted and well formed,
    /// the filter covering every key, every index entry naming the record
    /// at its ordinal together with its byte offset in the data block, and
    /// the meta block agreeing with the records.
    pub closed spec fn wf(&self) -> bool {
        &&& 0 < self@.len() <= u64::MAX
        &&& sorted_by_key(self@)
        &&& all_wf(self@)
        &&& records_bounded_wf(self@)
        &&& spec_encode_records(self@).len() <= u64::MAX
        &&& self.spec_index().len() <= u64::MAX
        &&& self.filter.wf()
        &&& forall|i: int| 0 <= i < self@.len() ==> spec_contains(
            self.filter@,
            (#[trigger] self@[i]).key,
        )
        &&& spec_index_facts(self.spec_index(), self@)
        &&& self.metadata.num_entries == self@.len()
        &&& self.metadata.total_size == spec_encode_records(self@).len()
        &&& self@.len() > 0 ==> self.metadata.first_key@ == self@[0].key
        &&& self@.len() > 0 ==> self.metadata.last_key@ == self@[self@.len() - 1].key
    }

    /// Entry count recorded in the meta block.
    pub closed spec fn spec_num_entries(&self) -> u64 {
        self.metadata.num_entries
    }

    /// Data-block size recorded in the meta block.
    pub closed spec fn spec_total_size(&self) -> u64 {
        self.metadata.total_size
    }

    /// First key recorded in the meta block.
    pub closed spec fn spec_first_key(&self) -> Seq<u8> {
        self.metadata.first_key@
    }

    /// Last key recorded in the meta block.
    pub closed spec fn spec_last_key(&self) -> Seq<u8> {
        self.metadata.last_key@
    }

    /// A well-formed segment's records are sorted by key and well formed.
    pub proof fn lemma_wf_records(&self)
        requires
            self.wf(),
        ensures
            sorted_by_key(self@),
            all_wf(self@),
    {
    }

    /// What a well-formed segment's meta block, sparse index and filter say
    /// of its records: the facts `build`, `flush` and `decode` establish,
    /// for callers outside this module.
    pub proof fn lemma_wf_metadata(&self)
        requires
            self.wf(),
        ensures
            self@.len() > 0,
            self.spec_num_entries() == self@.len(),
            self.spec_total_size() == spec_encode_records(self@).len(),
            self.spec_first_key() == self@[0].key,
            self.spec_last_key() == self@[self@.len() - 1].key,
            forall|i: int| 0 <= i < self@.len() ==> spec_contains(
                self.spec_filter(),
                (#[trigger] self@[i]).key,
            ),
            forall|j: int| 0 <= j < self.spec_index().len() ==> {
                let e = #[trigger] self.spec_index()[j];
                &&& e.1 < self@.len()
                &&& self@[e.1 as int].key == e.0
                &&& e.2 == spec_encode_records(self@.subrange(0, e.1 as int)).len()
            },
    {
    }

    /// A well-formed segment is a consistent segment model, so its
    /// serialization is a canonical file — which `decode` therefore always
    /// accepts: the byte-level round trip of the segment format.
    pub proof fn lemma_wf_canonical(&self)
        requires
            self.wf(),
        ensures
            spec_segment_consistent(self@, self.spec_index(), self.spec_filter()),
            spec_canonical_segment(
                spec_encode_sstable(self.spec_id(), self@, self.spec_index(), self.spec_filter()),
            ),
    {
        assert(spec_segment_consistent(self@, self.spec_index(), self.spec_filter()));
        let id = self.spec_id();
        let enc = spec_encode_sstable(id, self@, self.spec_index(), self.spec_filter());
        assert(spec_segment_consistent(self@, self.spec_index(), self.spec_filter())
            && enc == spec_encode_sstable(id, self@, self.spec_index(), self.spec_filter()));
        assert(spec_canonical_segment(enc));
    }

    /// Copy one record.
    fn copy_record(r: &SSTableRecord) -> (c: SSTableRecord)
        ensures
            c@ == r@,
    {
        SSTableRecord {
            key: vstd::slice::slice_to_vec(r.key.as_slice()),
            value: match &r.value {
                Option::Some(v) => Option::Some(vstd::slice::slice_to_vec(v.as_slice())),
                Option::None => Option::None,
            },
            timestamp: r.timestamp,
            deleted: r.deleted,
        }
    }

    /// Build a segment from sorted, well-formed records (the flush path for
    /// a MemTable's entries, and the output path of a compaction merge).
    pub fn build(id: u64, records: Vec<SSTableRecord>) -> (r: SSTable)
        requires
            records@.len() > 0,
            sorted_by_key(records@.map_values(|e: SSTableRecord| e@)),
            all_wf(records@.map_values(|e: SSTableRecord| e@)),
        ensures
            r.wf(),
            r@ == records@.map_values(|e: SSTableRecord| e@),
            r.spec_id() == id,
    {
        let ghost model = records@.map_values(|e: SSTableRecord| e@);
        let n = records.len();
        let mut filter = BloomFilter::new(n);
        let mut index: Vec<IndexEntry> = Vec::new();
        let mut data: Vec<u8> = Vec::new();
        let mut i: usize = 0;
        proof {
            assert(model.subrange(0, 0).len() == 0);
            assert(spec_encode_records(model.subrange(0, 0)).len() == 0);
        }
        while i < n
            invariant
                i <= n,
                n == records@.len(),
                model == records@.map_values(|e: SSTableRecord| e@),
                all_wf(model),
                filter.wf(),
                forall|j: int| 0 <= j < i ==> {
                    let r2 = #[trigger] model[j];
                    &&& r2.key.len() <= u64::MAX
                    &&& (r2.value is Some ==> r2.value->0.len() <= u64::MAX)
                },
                forall|j: int| 0 <= j < i ==> spec_contains(filter@, (#[trigger] model[j]).key),
                data@ == spec_encode_records(model.subrange(0, i as int)),
                forall|j: int| 0 <= j < index@.len() ==> {
                    let e = #[trigger] index@[j];
                    &&& e.ordinal < i
                    &&& model[e.ordinal as int].key == e.key@
                    &&& e.offset == spec_encode_records(model.subrange(0, e.ordinal as int)).len()
                },
            decreases n - i,
        {
            let e = &records[i];
            let key_len_now = e.key.len();
            let value_len_now = match &e.value {
                Option::Some(v) => v.len(),
                Option::None => 0,
            };
            proof {
                assert(e@ == model[i as int]);
                assert(model[i as int].wf());
                assert(model[i as int].key.len() == key_len_now);
                assert(model[i as int].value is Some ==> model[i as int].value->0.len()
                    == value_len_now);
            }
            if i % INDEX_INTERVAL == 0 {
                let entry = IndexEntry {
                    key: vstd::slice::slice_to_vec(e.key.as_slice()),
                    ordinal: i as u64,
                    offset: data.len() as u64,
                };
                index.push(entry);
            }
            let ghost oldfilter = filter@;
            filter.insert(e.key.as_slice());
            let ghost olddata = data@;
            append_record(&mut data, e.key.as_slice(), &e.value, e.timestamp, e.deleted);
            proof {
                assert(model.subrange(0, i + 1) =~= model.subrange(0, i as int) + seq![e@]);
                lemma_encode_records_concat(model.subrange(0, i as int), seq![e@]);
                lemma_encode_records_one(e@);
            }
            i = i + 1;
        }
        proof {
            assert(model.subrange(0, n as int) =~= model);
        }
        let first = &records[0];
        let last = &records[n - 1];
        let metadata = SSTableMetadata {
            id,
            first_key: vstd::slice::slice_to_vec(first.key.as_slice()),
            last_key: vstd::slice::slice_to_vec(last.key.as_slice()),
            total_size: data.len() as u64,
            num_entries: n as u64,
        };
        let data_len_total = data.len();
        let index_count = index.len();
        let r = SSTable { metadata, records, index, filter };
        proof {
            assert(r@ == model);
            assert(first@ == model[0]);
            assert(last@ == model[n - 1]);
            assert(records_bounded_wf(model));
            assert(spec_encode_records(model).len() == data_len_total);
            assert(r.spec_index().len() == index_count);
            assert forall|j: int| 0 <= j < r.spec_index().len() implies {
                let e = #[trigger] r.spec_index()[j];
                &&& e.1 < r@.len()
                &&& r@[e.1 as int].key == e.0
                &&& e.2 == spec_encode_records(r@.subrange(0, e.1 as int)).len()
            } by {
                assert(r.spec_index()[j] == (index@[j].key@, index@[j].ordinal, index@[j].offset));
            }
        }
        r
    }

    /// Flush a MemTable's sorted entries into a fresh segment.
    pub fn flush(id: u64, tbl: &MemTable) -> (r: SSTable)
        requires
            tbl.wf(),
            tbl@.len() > 0,
        ensures
            r.wf(),
            r@ == tbl@,
            r.spec_id() == id,
    {
        let src = tbl.entries();
        let mut records: Vec<SSTableRecord> = Vec::new();
        let mut i: usize = 0;
        while i < src.len()
            invariant
                i <= src@.len(),
                src@.map_values(|e: MemTableEntry| e@) == tbl@,
                records@.map_values(|e: SSTableRecord| e@) == tbl@.subrange(0, i as int),
            decreases src@.len() - i,
        {
            let e = &src[i];
            proof {
                assert(e@ == tbl@[i as int]);
            }
            let ghost oldmodel = records@.map_values(|e: SSTableRecord| e@);
            records.push(SSTableRecord {
                key: vstd::slice::slice_to_vec(e.key.as_slice()),
                value: match &e.value {
                    Option::Some(v) => Option::Some(vstd::slice::slice_to_vec(v.as_slice())),
                    Option::None => Option::None,
                },
                timestamp: e.timestamp,
                deleted: e.deleted,
            });
            proof {
                assert(records@.map_values(|e: SSTableRecord| e@) =~= oldmodel.push(
                    tbl@[i as int],
                ));
                assert(records@.map_values(|e: SSTableRecord| e@) =~= tbl@.subrange(0, i + 1));
            }
            i = i + 1;
        }
        proof {
            assert(tbl@.subrange(0, src@.len() as int) =~= tbl@);
        }
        Self::build(id, records)
    }

    /// Number of records in the segment.
    pub fn len(&self) -> (r: usize)
        ensures
            r == self@.len(),
    {
        self.records.len()
    }

    /// Copy of the segment's records, in key order (the compaction input).
    pub fn records(&self) -> (r: Vec<SSTableRecord>)
        ensures
            r@.map_values(|e: SSTableRecord| e@) == self@,
    {
        let mut out: Vec<SSTableRecord> = Vec::new();
        let mut i: usize = 0;
        while i < self.records.len()
            invariant
                i <= self.records@.len(),
                out@.map_values(|e: SSTableRecord| e@) == self@.subrange(0, i as int),
                self@.len() == self.records@.len(),
            decreases self.records@.len() - i,
        {
            let ghost oldmodel = out@.map_values(|e: SSTableRecord| e@);
            proof {
                assert(self.records@[i as int]@ == self@[i as int]);
            }
            out.push(Self::copy_record(&self.records[i]));
            proof {
                assert(out@.map_values(|e: SSTableRecord| e@) =~= oldmodel.push(self@[i as int]));
                assert(out@.map_values(|e: SSTableRecord| e@) =~= self@.subrange(0, i + 1));
            }
            i = i + 1;
        }
        proof {
            assert(self@.subrange(0, self@.len() as int) =~= self@);
        }
        out
    }

    /// Read the record stored under a key, tombstones included: first the
    /// membership filter (a definite absence answers immediately), then a
    /// binary search of the sparse index for a starting offset, then a
    /// sequential scan of the records from there.
    pub fn get(&self, key: &[u8]) -> (r: Option<SSTableRecord>)
        requires
            self.wf(),
        ensures
            match r {
                Option::Some(e) => spec_lookup(self@, key@) == Option::Some(e@),
                Option::None => spec_lookup(self@, key@) is None,
            },
    {
        if !self.filter.contains(key) {
            proof {
                assert forall|i: int| 0 <= i < self@.len() implies (#[trigger] self@[i]).key
                    != key@ by {
                    if self@[i].key == key@ {
                        assert(spec_contains(self.filter@, self@[i].key));
                    }
                }
                lemma_lookup_none(self@, key@);
            }
            return Option::None;
        }
        // Largest indexed key not above the target, if any.
        let nrec = self.records.len();
        let mut start: usize = 0;
        let mut lo: usize = 0;
        let mut hi: usize = self.index.len();
        while lo < hi
            invariant
                lo <= hi <= self.index@.len(),
                self.wf(),
                nrec == self@.len(),
                self.spec_index().len() == self.index@.len(),
                lo > 0 ==> !lex_lt(key@, self.spec_index()[lo - 1].0),
                start <= self@.len(),
                lo > 0 ==> start == self.spec_index()[lo - 1].1,
                lo == 0 ==> start == 0,
            decreases hi - lo,
        {
            let mid = lo + (hi - lo) / 2;
            let e = &self.index[mid];
            proof {
                assert(self.spec_index()[mid as int] == (e.key@, e.ordinal, e.offset));
            }
            match compare_keys(e.key.as_slice(), key) {
                KeyOrder::Greater => {
                    hi = mid;
                }
                _ => {
                    proof {
                        assert(e.ordinal < self@.len());
                        assert(e.ordinal < nrec as u64);
                        if lex_lt(e.key@, key@) {
                            lemma_lex_lt_asym(e.key@, key@);
                        } else {
                            lemma_lex_lt_irrefl(key@);
                        }
                    }
                    start = e.ordinal as usize;
                    lo = mid + 1;
                }
            }
        }
        // Every record before `start` has a key below the target.
        proof {
            if start > 0 {
                let e = self.spec_index()[lo - 1];
                assert(self@[e.1 as int].key == e.0);
                assert(!lex_lt(key@, e.0));
                assert forall|i: int| 0 <= i < start implies lex_lt(
                    (#[trigger] self@[i]).key,
                    key@,
                ) by {
                    assert(lex_lt(self@[i].key, self@[start as int].key));
                    lemma_lex_lt_total(key@, self@[start as int].key);
                    if key@ == self@[start as int].key {
                    } else {
                        lemma_lex_lt_trans(self@[i].key, self@[start as int].key, key@);
                    }
                }
            }
        }
        let mut pos: usize = start;
        while pos < self.records.len()
            invariant
                self.wf(),
                self@.len() == self.records@.len(),
                pos <= self@.len(),
                forall|i: int| 0 <= i < pos ==> lex_lt((#[trigger] self@[i]).key, key@),
            decreases self.records@.len() - pos,
        {
            let e = &self.records[pos];
            proof {
                assert(e@ == self@[pos as int]);
            }
            match compare_keys(e.key.as_slice(), key) {
                KeyOrder::Equal => {
                    proof {
                        lemma_lookup_at(self@, pos as int);
                    }
                    return Option::Some(Self::copy_record(e));
                }
                KeyOrder::Less => {
                    pos = pos + 1;
                }
                KeyOrder::Greater => {
                    proof {
                        assert forall|i: int| 0 <= i < self@.len() implies (#[trigger] self@[i]).key
                            != key@ by {
                            if i < pos {
                                lemma_lex_lt_irrefl(key@);
                            } else {
                                assert(lex_lt(key@, self@[pos as int].key));
                                if i > pos {
                                    lemma_lex_lt_trans(key@, self@[pos as int].key, self@[i].key);
                                }
                                lemma_lex_lt_irrefl(key@);
                                lemma_lex_lt_asym(key@, self@[i].key);
                            }
                        }
                        lemma_lookup_none(self@, key@);
                    }
                    return Option::None;
                }
            }
        }
        proof {
            assert forall|i: int| 0 <= i < self@.len() implies (#[trigger] self@[i]).key != key@ by {
                lemma_lex_lt_irrefl(key@);
            }
            lemma_lookup_none(self@, key@);
        }
        Option::None
    }
}

/// Magic number opening every segment file.
pub const SSTABLE_MAGIC: u32 = 0x4C534D53;

/// Format version written after the magic number.
pub const SSTABLE_VERSION: u32 = 1;

/// The serialized sparse-index entries: key length, key bytes, ordinal,
/// byte offset, each length and number little-endian over 8 bytes.
pub open spec fn spec_encode_index(ix: Seq<(Seq<u8>, u64, u64)>) -> Seq<u8>
    decreases ix.len(),
{
    if ix.len() == 0 {
        Seq::<u8>::empty()
    } else {
        spec_u64_to_le_bytes(ix[0].0.len() as u64) + ix[0].0 + spec_u64_to_le_bytes(ix[0].1)
            + spec_u64_to_le_bytes(ix[0].2) + spec_encode_index(ix.subrange(1, ix.len() as int))
    }
}

/// The serialized filter words, little-endian.
pub open spec fn spec_encode_filter(ws: Seq<u64>) -> Seq<u8>
    decreases ws.len(),
{
    if ws.len() == 0 {
        Seq::<u8>::empty()
    } else {
        spec_u64_to_le_bytes(ws[0]) + spec_encode_filter(ws.subrange(1, ws.len() as int))
    }
}

/// Serializing one more index entry appends its bytes.
pub proof fn lemma_encode_index_snoc(ix: Seq<(Seq<u8>, u64, u64)>, e: (Seq<u8>, u64, u64))
    ensures
        spec_encode_index(ix.push(e)) == spec_encode_index(ix) + spec_u64_to_le_bytes(
            e.0.len() as u64,
        ) + e.0 + spec_u64_to_le_bytes(e.1) + spec_u64_to_le_bytes(e.2),
    decreases ix.len(),
{
    if ix.len() == 0 {
        assert(ix.push(e)[0] == e);
        assert(ix.push(e).subrange(1, 1).len() == 0);
        assert(spec_encode_index(ix.push(e).subrange(1, 1)).len() == 0);
        assert(spec_encode_index(ix.push(e)) =~= spec_encode_index(ix) + spec_u64_to_le_bytes(
            e.0.len() as u64,
        ) + e.0 + spec_u64_to_le_bytes(e.1) + spec_u64_to_le_bytes(e.2));
    } else {
        assert(ix.push(e)[0] == ix[0]);
        assert(ix.push(e).subrange(1, ix.len() as int + 1) =~= ix.subrange(
            1,
            ix.len() as int,
        ).push(e));
        lemma_encode_index_snoc(ix.subrange(1, ix.len() as int), e);
        assert(spec_encode_index(ix.push(e)) =~= spec_encode_index(ix) + spec_u64_to_le_bytes(
            e.0.len() as u64,
        ) + e.0 + spec_u64_to_le_bytes(e.1) + spec_u64_to_le_bytes(e.2));
    }
}

/// Serializing one more filter word appends its bytes.
pub proof fn lemma_encode_filter_snoc(ws: Seq<u64>, w: u64)
    ensures
        spec_encode_filter(ws.push(w)) == spec_encode_filter(ws) + spec_u64_to_le_bytes(w),
    decreases ws.len(),
{
    if ws.len() == 0 {
        assert(ws.push(w)[0] == w);
        assert(ws.push(w).subrange(1, 1).len() == 0);
        assert(spec_encode_filter(ws.push(w).subrange(1, 1)).len() == 0);
        assert(spec_encode_filter(ws.push(w)) =~= spec_encode_filter(ws) + spec_u64_to_le_bytes(
            w,
        ));
    } else {
        assert(ws.push(w)[0] == ws[0]);
        assert(ws.push(w).subrange(1, ws.len() as int + 1) =~= ws.subrange(
            1,
            ws.len() as int,
        ).push(w));
        lemma_encode_filter_snoc(ws.subrange(1, ws.len() as int), w);
        assert(spec_encode_filter(ws.push(w)) =~= spec_encode_filter(ws) + spec_u64_to_le_bytes(
            w,
        ));
    }
}

/// The filter block's words serialize to eight bytes each.
pub proof fn lemma_encode_filter_len(ws: Seq<u64>)
    ensures
        spec_encode_filter(ws).len() == 8 * ws.len(),
    decreases ws.len(),
{
    vstd::bytes::lemma_auto_spec_u64_to_from_le_bytes();
    if ws.len() > 0 {
        lemma_encode_filter_len(ws.subrange(1, ws.len() as int));
    }
}

/// Serializing a concatenation of index entries concatenates the bytes.
pub proof fn lemma_encode_index_concat(ix1: Seq<(Seq<u8>, u64, u64)>, ix2: Seq<(Seq<u8>, u64, u64)>)
    ensures
        spec_encode_index(ix1 + ix2) == spec_encode_index(ix1) + spec_encode_index(ix2),
    decreases ix1.len(),
{
    if ix1.len() == 0 {
        assert(ix1 + ix2 =~= ix2);
        assert(spec_encode_index(ix1) + spec_encode_index(ix2) =~= spec_encode_index(ix2));
    } else {
        assert((ix1 + ix2)[0] == ix1[0]);
        assert((ix1 + ix2).subrange(1, (ix1 + ix2).len() as int) =~= ix1.subrange(
            1,
            ix1.len() as int,
        ) + ix2);
        lemma_encode_index_concat(ix1.subrange(1, ix1.len() as int), ix2);
        assert(spec_encode_index(ix1 + ix2) =~= spec_encode_index(ix1) + spec_encode_index(ix2));
    }
}

/// Each sparse-index entry serializes to at least its three fixed fields.
pub proof fn lemma_encode_index_len_min(ix: Seq<(Seq<u8>, u64, u64)>)
    ensures
        spec_encode_index(ix).len() >= 24 * ix.len(),
    decreases ix.len(),
{
    vstd::bytes::lemma_auto_spec_u64_to_from_le_bytes();
    if ix.len() > 0 {
        lemma_encode_index_len_min(ix.subrange(1, ix.len() as int));
    }
}

/// Serializing a concatenation of filter words concatenates the bytes.
pub proof fn lemma_encode_filter_concat(ws1: Seq<u64>, ws2: Seq<u64>)
    ensures
        spec_encode_filter(ws1 + ws2) == spec_encode_filter(ws1) + spec_encode_filter(ws2),
    decreases ws1.len(),
{
    if ws1.len() == 0 {
        assert(ws1 + ws2 =~= ws2);
        assert(spec_encode_filter(ws1) + spec_encode_filter(ws2) =~= spec_encode_filter(ws2));
    } else {
        assert((ws1 + ws2)[0] == ws1[0]);
        assert((ws1 + ws2).subrange(1, (ws1 + ws2).len() as int) =~= ws1.subrange(
            1,
            ws1.len() as int,
        ) + ws2);
        lemma_encode_filter_concat(ws1.subrange(1, ws1.len() as int), ws2);
        assert(spec_encode_filter(ws1 + ws2) =~= spec_encode_filter(ws1) + spec_encode_filter(
            ws2,
        ));
    }
}

/// The exact bytes of a whole segment file:
/// `[magic 4B | version 4B | data_len 8B] [DATA] [INDEX: count then
/// entries] [FILTER: word count then words] [META: id, entry count,
/// data size, first key, last key] [meta block offset 8B]`.
pub open spec fn spec_encode_sstable(
    id: u64,
    records: Seq<RecordModel>,
    ix: Seq<(Seq<u8>, u64, u64)>,
    ws: Seq<u64>,
) -> Seq<u8>
    recommends
        records.len() > 0,
{
    let data = spec_encode_records(records);
    let ixb = spec_u64_to_le_bytes(ix.len() as u64) + spec_encode_index(ix);
    let wsb = spec_u64_to_le_bytes(ws.len() as u64) + spec_encode_filter(ws);
    let meta = spec_u64_to_le_bytes(id) + spec_u64_to_le_bytes(records.len() as u64)
        + spec_u64_to_le_bytes(data.len() as u64) + spec_u64_to_le_bytes(
        records[0].key.len() as u64,
    ) + records[0].key + spec_u64_to_le_bytes(records[records.len() - 1].key.len() as u64)
        + records[records.len() - 1].key;
    spec_u32_to_le_bytes(SSTABLE_MAGIC) + spec_u32_to_le_bytes(SSTABLE_VERSION)
        + spec_u64_to_le_bytes(data.len() as u64) + data + ixb + wsb + meta
        + spec_u64_to_le_bytes((16 + data.len() + ixb.len() + wsb.len()) as u64)
}

/// Where each field of a canonical segment file sits and what it holds,
/// read back in the form the parser computes them.
#[verifier::rlimit(100)]
#[verifier::spinoff_prover]
pub proof fn lemma_canonical_fields(
    bytes: Seq<u8>,
    id: u64,
    rs: Seq<RecordModel>,
    ix: Seq<(Seq<u8>, u64, u64)>,
    ws: Seq<u64>,
)
    requires
        spec_segment_consistent(rs, ix, ws),
        bytes == spec_encode_sstable(id, rs, ix, ws),
        bytes.len() <= usize::MAX,
    ensures
        ({
            let data = spec_encode_records(rs);
            let ixe = spec_encode_index(ix);
            let wse = spec_encode_filter(ws);
            let d0 = 16 + data.len() as int;
            let i0 = d0 + 8;
            let w0 = i0 + ixe.len() as int;
            let f0 = w0 + 8;
            let m0 = f0 + wse.len() as int;
            let fklen = rs[0].key.len() as int;
            let lklen = rs[rs.len() - 1].key.len() as int;
            &&& wse.len() == 8 * ws.len()
            &&& bytes.len() == m0 + 40 + fklen + lklen + 8
            &&& spec_u32_from_le_bytes(bytes.subrange(0, 4)) == SSTABLE_MAGIC
            &&& spec_u32_from_le_bytes(bytes.subrange(4, 8)) == SSTABLE_VERSION
            &&& spec_u64_from_le_bytes(bytes.subrange(8, 16)) == data.len() as u64
            &&& bytes.subrange(16, d0) == data
            &&& spec_u64_from_le_bytes(bytes.subrange(d0, i0)) == ix.len() as u64
            &&& bytes.subrange(i0, w0) == ixe
            &&& spec_u64_from_le_bytes(bytes.subrange(w0, f0)) == ws.len() as u64
            &&& bytes.subrange(f0, m0) == wse
            &&& spec_u64_from_le_bytes(bytes.subrange(m0, m0 + 8)) == id
            &&& spec_u64_from_le_bytes(bytes.subrange(m0 + 8, m0 + 16)) == rs.len() as u64
            &&& spec_u64_from_le_bytes(bytes.subrange(m0 + 16, m0 + 24)) == data.len() as u64
            &&& spec_u64_from_le_bytes(bytes.subrange(m0 + 24, m0 + 32)) == rs[0].key.len() as u64
            &&& bytes.subrange(m0 + 32, m0 + 32 + fklen) == rs[0].key
            &&& spec_u64_from_le_bytes(bytes.subrange(m0 + 32 + fklen, m0 + 40 + fklen))
                == rs[rs.len() - 1].key.len() as u64
            &&& bytes.subrange(m0 + 40 + fklen, m0 + 40 + fklen + lklen) == rs[rs.len() - 1].key
            &&& spec_u64_from_le_bytes(bytes.subrange(bytes.len() - 8, bytes.len() as int))
                == m0 as u64
        }),
{
    lemma_auto_spec_u64_to_from_le_bytes();
    lemma_auto_spec_u32_to_from_le_bytes();
    lemma_encode_filter_len(ws);
    let data = spec_encode_records(rs);
    let ixe = spec_encode_index(ix);
    let wse = spec_encode_filter(ws);
    let d0 = 16 + data.len() as int;
    let i0 = d0 + 8;
    let w0 = i0 + ixe.len() as int;
    let f0 = w0 + 8;
    let m0 = f0 + wse.len() as int;
    let h1 = spec_u32_to_le_bytes(SSTABLE_MAGIC);
    let h2 = spec_u32_to_le_bytes(SSTABLE_VERSION);
    let dl = spec_u64_to_le_bytes(data.len() as u64);
    let ixc = spec_u64_to_le_bytes(ix.len() as u64);
    let wsc = spec_u64_to_le_bytes(ws.len() as u64);
    let mid = spec_u64_to_le_bytes(id);
    let mne = spec_u64_to_le_bytes(rs.len() as u64);
    let fkl = spec_u64_to_le_bytes(rs[0].key.len() as u64);
    let fk = rs[0].key;
    let lkl = spec_u64_to_le_bytes(rs[rs.len() - 1].key.len() as u64);
    let lk = rs[rs.len() - 1].key;
    let mo = spec_u64_to_le_bytes(
        (16 + data.len() + (ixc + ixe).len() + (wsc + wse).len()) as u64,
    );
    assert(bytes =~= h1 + h2 + dl + data + ixc + ixe + wsc + wse + mid + mne + dl + fkl + fk
        + lkl + lk + mo);
    assert(bytes.subrange(0, 4) =~= h1);
    assert(bytes.subrange(4, 8) =~= h2);
    assert(bytes.subrange(8, 16) =~= dl);
    assert(bytes.subrange(16, d0) =~= data);
    assert(bytes.subrange(d0, i0) =~= ixc);
    assert(bytes.subrange(i0, w0) =~= ixe);
    assert(bytes.subrange(w0, f0) =~= wsc);
    assert(bytes.subrange(f0, m0) =~= wse);
    assert(bytes.subrange(m0, m0 + 8) =~= mid);
    assert(bytes.subrange(m0 + 8, m0 + 16) =~= mne);
    assert(bytes.subrange(m0 + 16, m0 + 24) =~= dl);
    assert(bytes.subrange(m0 + 24, m0 + 32) =~= fkl);
    assert(bytes.subrange(m0 + 32, m0 + 32 + fk.len() as int) =~= fk);
    assert(bytes.subrange(m0 + 32 + fk.len(), m0 + 40 + fk.len()) =~= lkl);
    assert(bytes.subrange(m0 + 40 + fk.len(), m0 + 40 + fk.len() + lk.len()) =~= lk);
    assert(bytes.subrange(bytes.len() - 8, bytes.len() as int) =~= mo);
    assert((16 + data.len() + (ixc + ixe).len() + (wsc + wse).len()) as u64 == m0 as u64);
}

impl SSTable {
    /// Serialize the whole segment to its on-disk file bytes.
    pub fn encode(&self) -> (r: Vec<u8>)
        requires
            self.wf(),
        ensures
            r@ == spec_encode_sstable(self.spec_id(), self@, self.spec_index(), self.spec_filter()),
    {
        let mut out: Vec<u8> = Vec::new();
        let mut piece = u32_to_le_bytes(SSTABLE_MAGIC);
        out.append(&mut piece);
        let mut piece = u32_to_le_bytes(SSTABLE_VERSION);
        out.append(&mut piece);
        // Data block.
        let mut data: Vec<u8> = Vec::new();
        let mut i: usize = 0;
        proof {
            assert(self@.subrange(0, 0).len() == 0);
            assert(spec_encode_records(self@.subrange(0, 0)).len() == 0);
        }
        while i < self.records.len()
            invariant
                i <= self.records@.len(),
                self@.len() == self.records@.len(),
                self.wf(),
                data@ == spec_encode_records(self@.subrange(0, i as int)),
            decreases self.records@.len() - i,
        {
            let e = &self.records[i];
            proof {
                assert(e@ == self@[i as int]);
                assert(self@[i as int].wf());
            }
            append_record(&mut data, e.key.as_slice(), &e.value, e.timestamp, e.deleted);
            proof {
                assert(self@.subrange(0, i + 1) =~= self@.subrange(0, i as int) + seq![e@]);
                lemma_encode_records_concat(self@.subrange(0, i as int), seq![e@]);
                lemma_encode_records_one(e@);
            }
            i = i + 1;
        }
        proof {
            assert(self@.subrange(0, self@.len() as int) =~= self@);
        }
        let data_len = data.len();
        let mut piece = u64_to_le_bytes(data_len as u64);
        out.append(&mut piece);
        let ghost data_bytes = data@;
        out.append(&mut data);
        // Index block.
        let mut ixb: Vec<u8> = Vec::new();
        let mut piece = u64_to_le_bytes(self.index.len() as u64);
        ixb.append(&mut piece);
        let ghost ixcount = ixb@;
        let mut j: usize = 0;
        proof {
            assert(self.spec_index().subrange(0, 0).len() == 0);
            assert(spec_encode_index(self.spec_index().subrange(0, 0)).len() == 0);
            assert(ixb@ =~= ixcount + spec_encode_index(self.spec_index().subrange(0, 0)));
        }
        while j < self.index.len()
            invariant
                j <= self.index@.len(),
                self.spec_index().len() == self.index@.len(),
                ixcount == spec_u64_to_le_bytes(self.index@.len() as u64),
                ixb@ == ixcount + spec_encode_index(self.spec_index().subrange(0, j as int)),
            decreases self.index@.len() - j,
        {
            let e = &self.index[j];
            proof {
                assert(self.spec_index()[j as int] == (e.key@, e.ordinal, e.offset));
            }
            let mut piece = u64_to_le_bytes(e.key.len() as u64);
            ixb.append(&mut piece);
            let mut piece = vstd::slice::slice_to_vec(e.key.as_slice());
            ixb.append(&mut piece);
            let mut piece = u64_to_le_bytes(e.ordinal);
            ixb.append(&mut piece);
            let mut piece = u64_to_le_bytes(e.offset);
            ixb.append(&mut piece);
            proof {
                assert(self.spec_index().subrange(0, j + 1) =~= self.spec_index().subrange(
                    0,
                    j as int,
                ).push(self.spec_index()[j as int]));
                lemma_encode_index_snoc(
                    self.spec_index().subrange(0, j as int),
                    self.spec_index()[j as int],
                );
                assert(ixb@ =~= ixcount + spec_encode_index(
                    self.spec_index().subrange(0, j + 1),
                ));
            }
            j = j + 1;
        }
        proof {
            assert(self.spec_index().subrange(0, self.spec_index().len() as int)
                =~= self.spec_index());
        }
        let ghost ixb_bytes = ixb@;
        out.append(&mut ixb);
        // Filter block.
        let words = self.filter.words();
        let mut wsb: Vec<u8> = Vec::new();
        let mut piece = u64_to_le_bytes(words.len() as u64);
        wsb.append(&mut piece);
        let ghost wscount = wsb@;
        let mut k: usize = 0;
        proof {
            assert(self.spec_filter().subrange(0, 0).len() == 0);
            assert(spec_encode_filter(self.spec_filter().subrange(0, 0)).len() == 0);
            assert(wsb@ =~= wscount + spec_encode_filter(self.spec_filter().subrange(0, 0)));
        }
        while k < words.len()
            invariant
                k <= words@.len(),
                words@ == self.spec_filter(),
                wscount == spec_u64_to_le_bytes(words@.len() as u64),
                wsb@ == wscount + spec_encode_filter(self.spec_filter().subrange(0, k as int)),
            decreases words@.len() - k,
        {
            let mut piece = u64_to_le_bytes(words[k]);
            wsb.append(&mut piece);
            proof {
                assert(self.spec_filter().subrange(0, k + 1) =~= self.spec_filter().subrange(
                    0,
                    k as int,
                ).push(self.spec_filter()[k as int]));
                lemma_encode_filter_snoc(
                    self.spec_filter().subrange(0, k as int),
                    self.spec_filter()[k as int],
                );
                assert(wsb@ =~= wscount + spec_encode_filter(
                    self.spec_filter().subrange(0, k + 1),
                ));
            }
            k = k + 1;
        }
        proof {
            assert(self.spec_filter().subrange(0, self.spec_filter().len() as int)
                =~= self.spec_filter());
        }
        let ghost wsb_bytes = wsb@;
        out.append(&mut wsb);
        // Meta block, preceded by nothing and followed by its own offset.
        let meta_off = out.len();
        let mut piece = u64_to_le_bytes(self.metadata.id);
        out.append(&mut piece);
        let mut piece = u64_to_le_bytes(self.metadata.num_entries);
        out.append(&mut piece);
        let mut piece = u64_to_le_bytes(self.metadata.total_size);
        out.append(&mut piece);
        let mut piece = u64_to_le_bytes(self.metadata.first_key.len() as u64);
        out.append(&mut piece);
        let mut piece = vstd::slice::slice_to_vec(self.metadata.first_key.as_slice());
        out.append(&mut piece);
        let mut piece = u64_to_le_bytes(self.metadata.last_key.len() as u64);
        out.append(&mut piece);
        let mut piece = vstd::slice::slice_to_vec(self.metadata.last_key.as_slice());
        out.append(&mut piece);
        let mut piece = u64_to_le_bytes(meta_off as u64);
        out.append(&mut piece);
        proof {
            let data = spec_encode_records(self@);
            let ixbs = spec_u64_to_le_bytes(self.spec_index().len() as u64) + spec_encode_index(
                self.spec_index(),
            );
            let wsbs = spec_u64_to_le_bytes(self.spec_filter().len() as u64) + spec_encode_filter(
                self.spec_filter(),
            );
            assert(ixb_bytes == ixbs);
            assert(wsb_bytes == wsbs);
            assert(meta_off == 16 + data.len() + ixbs.len() + wsbs.len());
            assert(out@ =~= spec_encode_sstable(
                self.spec_id(),
                self@,
                self.spec_index(),
                self.spec_filter(),
            ));
        }
        out
    }
}

/// Read one little-endian `u64` at a byte offset.
fn read_u64_at(bytes: &Vec<u8>, pos: usize) -> (r: Option<u64>)
    requires
        pos <= bytes@.len(),
    ensures
        match r {
            Option::Some(v) => pos + 8 <= bytes@.len() && spec_u64_to_le_bytes(v)
                == bytes@.subrange(pos as int, pos as int + 8),
            Option::None => pos + 8 > bytes@.len(),
        },
{
    if bytes.len() - pos < 8 {
        return Option::None;
    }
    let v = u64_from_le_bytes(vstd::slice::slice_subrange(bytes.as_slice(), pos, pos + 8));
    proof {
        lemma_auto_spec_u64_to_from_le_bytes();
    }
    Option::Some(v)
}

/// Parse the data block: `dlen` bytes of consecutive canonical records
/// starting right after the header, with each record's byte offset. The
/// block parses exactly when it is the serialization of a run of
/// machine-representable well-formed records, and then to that very run.
fn parse_data_block(bytes: &Vec<u8>, dlen: usize) -> (r: Option<(Vec<SSTableRecord>, Vec<u64>)>)
    requires
        16 + dlen <= bytes@.len(),
    ensures
        match r {
            Option::Some(p) => {
                let rm = p.0@.map_values(|e: SSTableRecord| e@);
                &&& bytes@.subrange(16, 16 + dlen as int) == spec_encode_records(rm)
                &&& p.1@.len() == p.0@.len()
                &&& forall|t: int| 0 <= t < p.1@.len() ==> p.1@[t] == spec_encode_records(
                    rm.subrange(0, t),
                ).len()
                &&& all_wf(rm)
                &&& records_bounded_wf(rm)
                &&& forall|rs: Seq<RecordModel>| records_bounded_wf(rs) && bytes@.subrange(
                    16,
                    16 + dlen as int,
                ) == #[trigger] spec_encode_records(rs) ==> rs == rm
            },
            Option::None => forall|rs: Seq<RecordModel>| records_bounded_wf(rs)
                ==> bytes@.subrange(16, 16 + dlen as int) != #[trigger] spec_encode_records(rs),
        },
{
    let total = bytes.len();
    let end_data = 16 + dlen;
    let mut records: Vec<SSTableRecord> = Vec::new();
    let mut offs: Vec<u64> = Vec::new();
    let mut pos: usize = 16;
    proof {
        assert(bytes@.subrange(16, 16).len() == 0);
        assert(records@.map_values(|e: SSTableRecord| e@).len() == 0);
        assert(spec_encode_records(records@.map_values(|e: SSTableRecord| e@)).len() == 0);
        assert(bytes@.subrange(16, 16) =~= spec_encode_records(
            records@.map_values(|e: SSTableRecord| e@),
        ));
        assert forall|rs: Seq<RecordModel>| records_bounded_wf(rs) && bytes@.subrange(
            16,
            end_data as int,
        ) == #[trigger] spec_encode_records(rs) implies records@.map_values(
            |e: SSTableRecord| e@,
        ) == rs.subrange(0, 0) && spec_encode_records(rs.subrange(0, 0)).len() == 0 by {
            assert(rs.subrange(0, 0) =~= records@.map_values(|e: SSTableRecord| e@));
        }
    }
    while pos < end_data
        invariant
            16 <= pos <= end_data <= bytes@.len(),
            end_data == 16 + dlen,
            bytes@.subrange(16, pos as int) == spec_encode_records(
                records@.map_values(|e: SSTableRecord| e@),
            ),
            offs@.len() == records@.len(),
            forall|t: int| 0 <= t < offs@.len() ==> offs@[t] == spec_encode_records(
                records@.map_values(|e: SSTableRecord| e@).subrange(0, t),
            ).len(),
            all_wf(records@.map_values(|e: SSTableRecord| e@)),
            records_bounded_wf(records@.map_values(|e: SSTableRecord| e@)),
            forall|rs: Seq<RecordModel>| records_bounded_wf(rs) && bytes@.subrange(
                16,
                end_data as int,
            ) == #[trigger] spec_encode_records(rs) ==> records@.len() <= rs.len()
                && records@.map_values(|e: SSTableRecord| e@) == rs.subrange(
                0,
                records@.len() as int,
            ) && pos == 16 + spec_encode_records(rs.subrange(0, records@.len() as int)).len(),
        decreases end_data - pos,
    {
        let ghost oldmodel = records@.map_values(|e: SSTableRecord| e@);
        let ghost k = records@.len() as int;
        proof {
            // On canonical input the next record is forced.
            assert forall|rs: Seq<RecordModel>| records_bounded_wf(rs) && bytes@.subrange(
                16,
                end_data as int,
            ) == #[trigger] spec_encode_records(rs) implies {
                &&& k < rs.len()
                &&& spec_decode_record(bytes@, pos as int) == Option::Some(
                    (rs[k], pos + spec_encode_record(rs[k]).len()),
                )
                &&& (bytes@[pos + 8] == 0u8 || bytes@[pos + 8] == 1u8)
                &&& pos + spec_encode_record(rs[k]).len() <= end_data
            } by {
                let pre = rs.subrange(0, k);
                let suf = rs.subrange(k, rs.len() as int);
                assert(rs =~= pre + suf);
                lemma_encode_records_concat(pre, suf);
                lemma_encode_records_pos(suf);
                assert(spec_encode_records(rs).len() == dlen);
                assert(pos + spec_encode_records(suf).len() == end_data);
                assert(suf.len() > 0);
                assert(k < rs.len());
                assert(records_bounded_wf(suf)) by {
                    assert(forall|i: int| 0 <= i < suf.len() ==> #[trigger] suf[i] == rs[k + i]);
                }
                assert(bytes@.subrange(pos as int, end_data as int) =~= spec_encode_records(
                    suf,
                )) by {
                    assert forall|i: int| 0 <= i < spec_encode_records(suf).len() implies bytes@
                        .subrange(pos as int, end_data as int)[i] == spec_encode_records(
                        suf,
                    )[i] by {
                        assert(bytes@.subrange(16, end_data as int)[(pos - 16) + i]
                            == spec_encode_records(rs)[(pos - 16) + i]);
                        assert(spec_encode_records(rs) == spec_encode_records(pre)
                            + spec_encode_records(suf));
                    }
                }
                crate::codec::lemma_decode_first(bytes@, pos as int, suf);
                assert(suf[0] == rs[k]);
            }
        }
        match decode_record(bytes.as_slice(), pos) {
            Option::None => {
                proof {
                    assert forall|rs: Seq<RecordModel>| records_bounded_wf(rs)
                        implies bytes@.subrange(16, 16 + dlen as int)
                        != #[trigger] spec_encode_records(rs) by {
                        if bytes@.subrange(16, end_data as int) == spec_encode_records(rs) {
                            assert(spec_decode_record(bytes@, pos as int) is Some);
                        }
                    }
                }
                return Option::None;
            }
            Option::Some(p) => {
                let (e, np) = p;
                if np > end_data {
                    proof {
                        assert forall|rs: Seq<RecordModel>| records_bounded_wf(rs)
                            implies bytes@.subrange(16, 16 + dlen as int)
                            != #[trigger] spec_encode_records(rs) by {
                            if bytes@.subrange(16, end_data as int) == spec_encode_records(rs) {
                                assert(np == pos + spec_encode_record(rs[k]).len());
                            }
                        }
                    }
                    return Option::None;
                }
                let tb = *vstd::slice::slice_index_get(bytes.as_slice(), pos + 8);
                if tb > 1 {
                    proof {
                        assert forall|rs: Seq<RecordModel>| records_bounded_wf(rs)
                            implies bytes@.subrange(16, 16 + dlen as int)
                            != #[trigger] spec_encode_records(rs) by {
                            if bytes@.subrange(16, end_data as int) == spec_encode_records(rs) {
                                assert(bytes@[pos + 8] == 0u8 || bytes@[pos + 8] == 1u8);
                            }
                        }
                    }
                    return Option::None;
                }
                proof {
                    lemma_decode_canonical(bytes@, pos as int);
                }
                let key_len_now = e.key.len();
                let value_len_now = match &e.value {
                    Option::Some(v) => v.len(),
                    Option::None => 0,
                };
                proof {
                    assert(e@.key.len() == key_len_now);
                    assert(e@.value is Some ==> e@.value->0.len() == value_len_now);
                }
                offs.push((pos - 16) as u64);
                records.push(SSTableRecord {
                    key: e.key,
                    value: e.value,
                    timestamp: e.timestamp,
                    deleted: e.deleted,
                });
                proof {
                    let newmodel = records@.map_values(|e2: SSTableRecord| e2@);
                    assert(newmodel =~= oldmodel.push(e@));
                    assert(oldmodel.push(e@) =~= oldmodel + seq![e@]);
                    lemma_encode_records_concat(oldmodel, seq![e@]);
                    lemma_encode_records_one(e@);
                    assert(bytes@.subrange(pos as int, np as int) == spec_encode_record(e@));
                    assert(bytes@.subrange(16, np as int) =~= bytes@.subrange(16, pos as int)
                        + bytes@.subrange(pos as int, np as int));
                    assert forall|t: int| 0 <= t < offs@.len() implies offs@[t]
                        == spec_encode_records(newmodel.subrange(0, t)).len() by {
                        if t < offs@.len() - 1 {
                            assert(newmodel.subrange(0, t) =~= oldmodel.subrange(0, t));
                        } else {
                            assert(newmodel.subrange(0, t) =~= oldmodel);
                        }
                    }
                    assert(records_bounded_wf(newmodel)) by {
                        assert forall|i: int| 0 <= i < newmodel.len() implies {
                            let r2 = #[trigger] newmodel[i];
                            &&& r2.wf()
                            &&& r2.key.len() <= u64::MAX
                            &&& (r2.value is Some ==> r2.value->0.len() <= u64::MAX)
                        } by {
                            if i < newmodel.len() - 1 {
                                assert(newmodel[i] == oldmodel[i]);
                            } else {
                                assert(newmodel[i] == e@);
                            }
                        }
                    }
                    // Canonical input forces the record just stored.
                    assert forall|rs: Seq<RecordModel>| records_bounded_wf(rs) && bytes@
                        .subrange(16, end_data as int) == #[trigger] spec_encode_records(rs)
                        implies records@.len() <= rs.len() && newmodel == rs.subrange(
                        0,
                        records@.len() as int,
                    ) && np as int == 16 + spec_encode_records(
                        rs.subrange(0, records@.len() as int),
                    ).len() by {
                        assert(spec_decode_record(bytes@, pos as int) == Option::Some(
                            (rs[k], pos + spec_encode_record(rs[k]).len()),
                        ));
                        assert(e@ == rs[k]);
                        assert(np == pos + spec_encode_record(rs[k]).len());
                        let pre1 = rs.subrange(0, k + 1);
                        assert(pre1 =~= rs.subrange(0, k) + seq![rs[k]]);
                        lemma_encode_records_concat(rs.subrange(0, k), seq![rs[k]]);
                        lemma_encode_records_one(rs[k]);
                        assert(newmodel =~= pre1);
                    }
                }
                pos = np;
            }
        }
    }
    proof {
        let rm = records@.map_values(|e: SSTableRecord| e@);
        assert(bytes@.subrange(16, end_data as int) == spec_encode_records(rm));
        // Canonical input is consumed whole: nothing of the run remains.
        assert forall|rs: Seq<RecordModel>| records_bounded_wf(rs) && bytes@.subrange(
            16,
            16 + dlen as int,
        ) == #[trigger] spec_encode_records(rs) implies rs == rm by {
            let k = records@.len() as int;
            let pre = rs.subrange(0, k);
            let suf = rs.subrange(k, rs.len() as int);
            assert(rs =~= pre + suf);
            lemma_encode_records_concat(pre, suf);
            lemma_encode_records_pos(suf);
            assert(pos == 16 + spec_encode_records(pre).len());
            assert(spec_encode_records(suf).len() == 0);
            assert(suf.len() == 0);
            assert(rs =~= pre);
            assert(rm == pre);
        }
    }
    Option::Some((records, offs))
}

/// Parse `count` sparse-index entries at `start`, checking each against
/// the records and offsets of the data block. The block parses exactly
/// when it is the serialization of `count` entries that name true records
/// at their true offsets, and then to those very entries.
fn parse_index_block(
    bytes: &Vec<u8>,
    start: usize,
    count: usize,
    records: &Vec<SSTableRecord>,
    offs: &Vec<u64>,
) -> (r: Option<(Vec<IndexEntry>, usize)>)
    requires
        start <= bytes@.len(),
        records@.len() > 0,
        records_bounded_wf(records@.map_values(|e: SSTableRecord| e@)),
        offs@.len() == records@.len(),
        forall|t: int| 0 <= t < offs@.len() ==> offs@[t] == spec_encode_records(
            records@.map_values(|e: SSTableRecord| e@).subrange(0, t),
        ).len(),
    ensures
        ({
            let rm = records@.map_values(|e: SSTableRecord| e@);
            match r {
                Option::Some(p) => {
                    let ixm = p.0@.map_values(|x: IndexEntry| (x.key@, x.ordinal, x.offset));
                    &&& start <= p.1 <= bytes@.len()
                    &&& bytes@.subrange(start as int, p.1 as int) == spec_encode_index(ixm)
                    &&& p.0@.len() == count
                    &&& spec_index_facts(ixm, rm)
                    &&& forall|ix: Seq<(Seq<u8>, u64, u64)>| ix.len() == count
                        && spec_index_facts(ix, rm) && start + #[trigger] spec_encode_index(
                        ix,
                    ).len() <= bytes@.len() && bytes@.subrange(
                        start as int,
                        start + spec_encode_index(ix).len(),
                    ) == spec_encode_index(ix) ==> ix == ixm && p.1 == start
                        + spec_encode_index(ix).len()
                },
                Option::None => forall|ix: Seq<(Seq<u8>, u64, u64)>| ix.len() == count
                    && spec_index_facts(ix, rm) ==> !(start + #[trigger] spec_encode_index(
                    ix,
                ).len() <= bytes@.len() && bytes@.subrange(
                    start as int,
                    start + spec_encode_index(ix).len(),
                ) == spec_encode_index(ix)),
            }
        }),
{
    let ghost rmodel = records@.map_values(|e: SSTableRecord| e@);
    let n = records.len();
    let total = bytes.len();
    let mut index: Vec<IndexEntry> = Vec::new();
    let mut pos = start;
    let mut jj: usize = 0;
    proof {
        let ixm = index@.map_values(|x: IndexEntry| (x.key@, x.ordinal, x.offset));
        assert(ixm.len() == 0);
        assert(spec_encode_index(ixm).len() == 0);
        assert(bytes@.subrange(start as int, pos as int) =~= spec_encode_index(ixm));
        assert forall|ix: Seq<(Seq<u8>, u64, u64)>| ix.len() == count && spec_index_facts(
            ix,
            rmodel,
        ) && start + #[trigger] spec_encode_index(ix).len() <= bytes@.len() && bytes@.subrange(
            start as int,
            start + spec_encode_index(ix).len(),
        ) == spec_encode_index(ix) implies index@.map_values(
            |x: IndexEntry| (x.key@, x.ordinal, x.offset),
        ) == ix.subrange(0, 0) && spec_encode_index(ix.subrange(0, 0)).len() == 0 by {
            assert(ix.subrange(0, 0) =~= index@.map_values(
                |x: IndexEntry| (x.key@, x.ordinal, x.offset),
            ));
        }
    }
    while jj < count
        invariant
            jj <= count,
            start <= pos <= total,
            total == bytes@.len(),
            n == records@.len(),
            n > 0,
            rmodel == records@.map_values(|e: SSTableRecord| e@),
            records_bounded_wf(rmodel),
            offs@.len() == n,
            forall|t: int| 0 <= t < offs@.len() ==> offs@[t] == spec_encode_records(
                rmodel.subrange(0, t),
            ).len(),
            index@.len() == jj,
            bytes@.subrange(start as int, pos as int) == spec_encode_index(
                index@.map_values(|x: IndexEntry| (x.key@, x.ordinal, x.offset)),
            ),
            spec_index_facts(
                index@.map_values(|x: IndexEntry| (x.key@, x.ordinal, x.offset)),
                rmodel,
            ),
            forall|ix: Seq<(Seq<u8>, u64, u64)>| ix.len() == count && spec_index_facts(
                ix,
                rmodel,
            ) && start + #[trigger] spec_encode_index(ix).len() <= bytes@.len()
                && bytes@.subrange(start as int, start + spec_encode_index(ix).len())
                == spec_encode_index(ix) ==> index@.map_values(
                |x: IndexEntry| (x.key@, x.ordinal, x.offset),
            ) == ix.subrange(0, jj as int) && pos == start + spec_encode_index(
                ix.subrange(0, jj as int),
            ).len(),
        decreases count - jj,
    {
        let ghost oldix = index@.map_values(|x: IndexEntry| (x.key@, x.ordinal, x.offset));
        let ghost entry_start = pos;
        proof {
            lemma_auto_spec_u64_to_from_le_bytes();
            // On canonical input the next entry is forced.
            assert forall|ix: Seq<(Seq<u8>, u64, u64)>| ix.len() == count && spec_index_facts(
                ix,
                rmodel,
            ) && start + #[trigger] spec_encode_index(ix).len() <= bytes@.len()
                && bytes@.subrange(start as int, start + spec_encode_index(ix).len())
                == spec_encode_index(ix) implies {
                let e = ix[jj as int];
                let elen = 24 + e.0.len() as int;
                &&& e.0.len() <= u64::MAX
                &&& pos + elen <= start + spec_encode_index(ix).len()
                &&& bytes@.subrange(pos as int, pos + 8) == spec_u64_to_le_bytes(
                    e.0.len() as u64,
                )
                &&& bytes@.subrange(pos + 8, pos + 8 + e.0.len() as int) == e.0
                &&& bytes@.subrange(pos + 8 + e.0.len(), pos + 16 + e.0.len())
                    == spec_u64_to_le_bytes(e.1)
                &&& bytes@.subrange(pos + 16 + e.0.len(), pos + 24 + e.0.len())
                    == spec_u64_to_le_bytes(e.2)
            } by {
                let pre = ix.subrange(0, jj as int);
                let suf = ix.subrange(jj as int, ix.len() as int);
                assert(ix =~= pre + suf);
                lemma_encode_index_concat(pre, suf);
                let e = ix[jj as int];
                assert(suf[0] == e);
                assert(e.0 == rmodel[e.1 as int].key);
                assert(e.0.len() <= u64::MAX);
                let ebytes = spec_u64_to_le_bytes(e.0.len() as u64) + e.0
                    + spec_u64_to_le_bytes(e.1) + spec_u64_to_le_bytes(e.2);
                assert(spec_encode_index(suf) == ebytes + spec_encode_index(
                    suf.subrange(1, suf.len() as int),
                ));
                assert(ebytes.len() == 24 + e.0.len());
                assert(pos == start + spec_encode_index(pre).len());
                let regend = start + spec_encode_index(ix).len();
                assert forall|i: int| 0 <= i < spec_encode_index(suf).len() implies bytes@[pos
                    + i] == spec_encode_index(suf)[i] by {
                    assert(bytes@.subrange(start as int, regend)[(pos - start) + i]
                        == spec_encode_index(ix)[(pos - start) + i]);
                    assert(spec_encode_index(ix) == spec_encode_index(pre) + spec_encode_index(
                        suf,
                    ));
                }
                assert(bytes@.subrange(pos as int, pos + 8) =~= spec_u64_to_le_bytes(
                    e.0.len() as u64,
                )) by {
                    assert forall|i: int| 0 <= i < 8 implies #[trigger] bytes@.subrange(
                        pos as int,
                        pos + 8,
                    )[i] == spec_u64_to_le_bytes(e.0.len() as u64)[i] by {
                        assert(bytes@[pos + i] == spec_encode_index(suf)[i]);
                        assert(spec_encode_index(suf)[i] == ebytes[i]);
                        assert(ebytes[i] == spec_u64_to_le_bytes(e.0.len() as u64)[i]);
                    }
                }
                assert(bytes@.subrange(pos + 8, pos + 8 + e.0.len() as int) =~= e.0) by {
                    assert forall|i: int| 0 <= i < e.0.len() implies #[trigger] bytes@.subrange(
                        pos + 8,
                        pos + 8 + e.0.len() as int,
                    )[i] == e.0[i] by {
                        assert(bytes@[pos + 8 + i] == spec_encode_index(suf)[8 + i]);
                        assert(spec_encode_index(suf)[8 + i] == ebytes[8 + i]);
                        assert(ebytes[8 + i] == e.0[i]);
                    }
                }
                assert(bytes@.subrange(pos + 8 + e.0.len(), pos + 16 + e.0.len())
                    =~= spec_u64_to_le_bytes(e.1)) by {
                    assert forall|i: int| 0 <= i < 8 implies #[trigger] bytes@.subrange(
                        pos + 8 + e.0.len(),
                        pos + 16 + e.0.len(),
                    )[i] == spec_u64_to_le_bytes(e.1)[i] by {
                        assert(bytes@[pos + 8 + e.0.len() + i] == spec_encode_index(suf)[8
                            + e.0.len() + i]);
                        assert(spec_encode_index(suf)[8 + e.0.len() + i] == ebytes[8 + e.0.len()
                            + i]);
                        assert(ebytes[8 + e.0.len() + i] == spec_u64_to_le_bytes(e.1)[i]);
                    }
                }
                assert(bytes@.subrange(pos + 16 + e.0.len(), pos + 24 + e.0.len())
                    =~= spec_u64_to_le_bytes(e.2)) by {
                    assert forall|i: int| 0 <= i < 8 implies #[trigger] bytes@.subrange(
                        pos + 16 + e.0.len(),
                        pos + 24 + e.0.len(),
                    )[i] == spec_u64_to_le_bytes(e.2)[i] by {
                        assert(bytes@[pos + 16 + e.0.len() + i] == spec_encode_index(suf)[16
                            + e.0.len() + i]);
                        assert(spec_encode_index(suf)[16 + e.0.len() + i] == ebytes[16
                            + e.0.len() + i]);
                        assert(ebytes[16 + e.0.len() + i] == spec_u64_to_le_bytes(e.2)[i]);
                    }
                }
            }
        }
        let klen64 = match read_u64_at(bytes, pos) {
            Option::Some(v) => v,
            Option::None => {
                proof {
                    lemma_auto_spec_u64_to_from_le_bytes();
                    assert forall|ix: Seq<(Seq<u8>, u64, u64)>| ix.len() == count
                        && spec_index_facts(ix, rmodel) implies !(start
                        + #[trigger] spec_encode_index(ix).len() <= bytes@.len()
                        && bytes@.subrange(
                        start as int,
                        start + spec_encode_index(ix).len(),
                    ) == spec_encode_index(ix)) by {
                        if start + spec_encode_index(ix).len() <= bytes@.len()
                            && bytes@.subrange(
                            start as int,
                            start + spec_encode_index(ix).len(),
                        ) == spec_encode_index(ix) {
                            let e = ix[jj as int];
                            assert(pos + 24 + e.0.len() <= bytes@.len());
                            assert(false);
                        }
                    }
                }
                return Option::None;
            }
        };
        if klen64 > (total - (pos + 8)) as u64 {
            proof {
                    lemma_auto_spec_u64_to_from_le_bytes();
                    assert forall|ix: Seq<(Seq<u8>, u64, u64)>| ix.len() == count
                        && spec_index_facts(ix, rmodel) implies !(start
                        + #[trigger] spec_encode_index(ix).len() <= bytes@.len()
                        && bytes@.subrange(
                        start as int,
                        start + spec_encode_index(ix).len(),
                    ) == spec_encode_index(ix)) by {
                        if start + spec_encode_index(ix).len() <= bytes@.len()
                            && bytes@.subrange(
                            start as int,
                            start + spec_encode_index(ix).len(),
                        ) == spec_encode_index(ix) {
                            let e = ix[jj as int];
                            assert(spec_u64_to_le_bytes(klen64) == spec_u64_to_le_bytes(
                                e.0.len() as u64,
                            ));
                            assert(klen64 == e.0.len() as u64);
                            assert(pos + 24 + e.0.len() <= bytes@.len());
                            assert(false);
                        }
                    }
                }
            return Option::None;
        }
        let klen = klen64 as usize;
        let key = vstd::slice::slice_to_vec(
            vstd::slice::slice_subrange(bytes.as_slice(), pos + 8, pos + 8 + klen),
        );
        let kend = pos + 8 + klen;
        let ordinal = match read_u64_at(bytes, kend) {
            Option::Some(v) => v,
            Option::None => {
                proof {
                    lemma_auto_spec_u64_to_from_le_bytes();
                    assert forall|ix: Seq<(Seq<u8>, u64, u64)>| ix.len() == count
                        && spec_index_facts(ix, rmodel) implies !(start
                        + #[trigger] spec_encode_index(ix).len() <= bytes@.len()
                        && bytes@.subrange(
                        start as int,
                        start + spec_encode_index(ix).len(),
                    ) == spec_encode_index(ix)) by {
                        if start + spec_encode_index(ix).len() <= bytes@.len()
                            && bytes@.subrange(
                            start as int,
                            start + spec_encode_index(ix).len(),
                        ) == spec_encode_index(ix) {
                            let e = ix[jj as int];
                            assert(spec_u64_to_le_bytes(klen64) == spec_u64_to_le_bytes(
                                e.0.len() as u64,
                            ));
                            assert(klen64 == e.0.len() as u64);
                            assert(pos + 24 + e.0.len() <= bytes@.len());
                            assert(false);
                        }
                    }
                }
                return Option::None;
            }
        };
        let offset = match read_u64_at(bytes, kend + 8) {
            Option::Some(v) => v,
            Option::None => {
                proof {
                    lemma_auto_spec_u64_to_from_le_bytes();
                    assert forall|ix: Seq<(Seq<u8>, u64, u64)>| ix.len() == count
                        && spec_index_facts(ix, rmodel) implies !(start
                        + #[trigger] spec_encode_index(ix).len() <= bytes@.len()
                        && bytes@.subrange(
                        start as int,
                        start + spec_encode_index(ix).len(),
                    ) == spec_encode_index(ix)) by {
                        if start + spec_encode_index(ix).len() <= bytes@.len()
                            && bytes@.subrange(
                            start as int,
                            start + spec_encode_index(ix).len(),
                        ) == spec_encode_index(ix) {
                            let e = ix[jj as int];
                            assert(spec_u64_to_le_bytes(klen64) == spec_u64_to_le_bytes(
                                e.0.len() as u64,
                            ));
                            assert(klen64 == e.0.len() as u64);
                            assert(pos + 24 + e.0.len() <= bytes@.len());
                            assert(false);
                        }
                    }
                }
                return Option::None;
            }
        };
        proof {
            lemma_auto_spec_u64_to_from_le_bytes();
        }
        if !(ordinal < n as u64) {
            proof {
                    lemma_auto_spec_u64_to_from_le_bytes();
                    assert forall|ix: Seq<(Seq<u8>, u64, u64)>| ix.len() == count
                        && spec_index_facts(ix, rmodel) implies !(start
                        + #[trigger] spec_encode_index(ix).len() <= bytes@.len()
                        && bytes@.subrange(
                        start as int,
                        start + spec_encode_index(ix).len(),
                    ) == spec_encode_index(ix)) by {
                        if start + spec_encode_index(ix).len() <= bytes@.len()
                            && bytes@.subrange(
                            start as int,
                            start + spec_encode_index(ix).len(),
                        ) == spec_encode_index(ix) {
                            let e = ix[jj as int];
                            assert(spec_u64_to_le_bytes(ordinal) == spec_u64_to_le_bytes(e.1));
                            assert(ordinal == e.1);
                            assert(e.1 < rmodel.len());
                            assert(false);
                        }
                    }
                }
            return Option::None;
        }
        let ord = ordinal as usize;
        proof {
            assert(records@[ord as int]@ == rmodel[ord as int]);
        }
        match compare_keys(key.as_slice(), records[ord].key.as_slice()) {
            KeyOrder::Equal => {}
            _ => {
                proof {
                    lemma_auto_spec_u64_to_from_le_bytes();
                    assert forall|ix: Seq<(Seq<u8>, u64, u64)>| ix.len() == count
                        && spec_index_facts(ix, rmodel) implies !(start
                        + #[trigger] spec_encode_index(ix).len() <= bytes@.len()
                        && bytes@.subrange(
                        start as int,
                        start + spec_encode_index(ix).len(),
                    ) == spec_encode_index(ix)) by {
                        if start + spec_encode_index(ix).len() <= bytes@.len()
                            && bytes@.subrange(
                            start as int,
                            start + spec_encode_index(ix).len(),
                        ) == spec_encode_index(ix) {
                            let e = ix[jj as int];
                            assert(spec_u64_to_le_bytes(klen64) == spec_u64_to_le_bytes(
                                e.0.len() as u64,
                            ));
                            assert(klen64 == e.0.len() as u64);
                            assert(key@ == bytes@.subrange(pos + 8, pos + 8 + e.0.len() as int));
                            assert(key@ == e.0);
                            assert(spec_u64_to_le_bytes(ordinal) == spec_u64_to_le_bytes(e.1));
                            assert(ordinal == e.1);
                            assert(e.0 == rmodel[ord as int].key);
                            assert(records@[ord as int]@ == rmodel[ord as int]);
                            assert(false);
                        }
                    }
                }
                return Option::None;
            }
        }
        if offset != offs[ord] {
            proof {
                    lemma_auto_spec_u64_to_from_le_bytes();
                    assert forall|ix: Seq<(Seq<u8>, u64, u64)>| ix.len() == count
                        && spec_index_facts(ix, rmodel) implies !(start
                        + #[trigger] spec_encode_index(ix).len() <= bytes@.len()
                        && bytes@.subrange(
                        start as int,
                        start + spec_encode_index(ix).len(),
                    ) == spec_encode_index(ix)) by {
                        if start + spec_encode_index(ix).len() <= bytes@.len()
                            && bytes@.subrange(
                            start as int,
                            start + spec_encode_index(ix).len(),
                        ) == spec_encode_index(ix) {
                            let e = ix[jj as int];
                            assert(spec_u64_to_le_bytes(ordinal) == spec_u64_to_le_bytes(e.1));
                            assert(ordinal == e.1);
                            assert(spec_u64_to_le_bytes(offset) == spec_u64_to_le_bytes(e.2));
                            assert(offset == e.2);
                            assert(e.2 == spec_encode_records(
                                rmodel.subrange(0, e.1 as int),
                            ).len());
                            assert(offs@[ord as int] == spec_encode_records(
                                rmodel.subrange(0, ord as int),
                            ).len());
                            assert(false);
                        }
                    }
                }
            return Option::None;
        }
        let ghost keymodel = key@;
        index.push(IndexEntry { key, ordinal, offset });
        proof {
            let newix = index@.map_values(|x: IndexEntry| (x.key@, x.ordinal, x.offset));
            let e = (keymodel, ordinal, offset);
            assert(index@[jj as int].key@ == keymodel);
            assert(newix =~= oldix.push(e));
            lemma_encode_index_snoc(oldix, e);
            assert(keymodel == bytes@.subrange(entry_start as int + 8, kend as int));
            assert(spec_u64_to_le_bytes(e.0.len() as u64) == bytes@.subrange(
                entry_start as int,
                entry_start as int + 8,
            ));
            assert(bytes@.subrange(start as int, kend as int + 16) =~= bytes@.subrange(
                start as int,
                entry_start as int,
            ) + bytes@.subrange(entry_start as int, entry_start as int + 8) + bytes@.subrange(
                entry_start as int + 8,
                kend as int,
            ) + bytes@.subrange(kend as int, kend as int + 8) + bytes@.subrange(
                kend as int + 8,
                kend as int + 16,
            ));
            // On canonical input, the entry just stored is the model's.
            assert forall|ix: Seq<(Seq<u8>, u64, u64)>| ix.len() == count && spec_index_facts(
                ix,
                rmodel,
            ) && start + #[trigger] spec_encode_index(ix).len() <= bytes@.len()
                && bytes@.subrange(start as int, start + spec_encode_index(ix).len())
                == spec_encode_index(ix) implies newix == ix.subrange(0, jj + 1) && kend + 16
                == start + spec_encode_index(ix.subrange(0, jj + 1)).len() by {
                let em = ix[jj as int];
                assert(spec_u64_to_le_bytes(klen64) == spec_u64_to_le_bytes(
                    em.0.len() as u64,
                ));
                assert(klen64 == em.0.len() as u64);
                assert(keymodel == em.0);
                assert(spec_u64_to_le_bytes(ordinal) == spec_u64_to_le_bytes(em.1));
                assert(ordinal == em.1);
                assert(spec_u64_to_le_bytes(offset) == spec_u64_to_le_bytes(em.2));
                assert(offset == em.2);
                assert(e == em);
                assert(ix.subrange(0, jj + 1) =~= ix.subrange(0, jj as int).push(em));
                lemma_encode_index_snoc(ix.subrange(0, jj as int), em);
                assert(newix =~= ix.subrange(0, jj + 1));
            }
        }
        pos = kend + 16;
        jj = jj + 1;
    }
    proof {
        // Canonical input pins the whole block.
        let ixm = index@.map_values(|x: IndexEntry| (x.key@, x.ordinal, x.offset));
        assert forall|ix: Seq<(Seq<u8>, u64, u64)>| ix.len() == count && spec_index_facts(
            ix,
            rmodel,
        ) && start + #[trigger] spec_encode_index(ix).len() <= bytes@.len() && bytes@.subrange(
            start as int,
            start + spec_encode_index(ix).len(),
        ) == spec_encode_index(ix) implies ix == ixm && pos == start + spec_encode_index(
            ix,
        ).len() by {
            assert(ix.subrange(0, count as int) =~= ix);
        }
    }
    Option::Some((index, pos))
}

/// Parse `count` filter words at `start`. The block parses exactly when it
/// is the serialization of `count` words, and then to those very words.
fn parse_filter_words(bytes: &Vec<u8>, start: usize, count: usize) -> (r: Option<(Vec<u64>, usize)>)
    requires
        start <= bytes@.len(),
    ensures
        match r {
            Option::Some(p) => {
                &&& start <= p.1 <= bytes@.len()
                &&& bytes@.subrange(start as int, p.1 as int) == spec_encode_filter(p.0@)
                &&& p.0@.len() == count
                &&& p.1 == start + 8 * count
                &&& forall|ws: Seq<u64>| ws.len() == count && start + 8 * count <= bytes@.len()
                    && bytes@.subrange(start as int, start + 8 * count as int)
                    == #[trigger] spec_encode_filter(ws) ==> ws == p.0@
            },
            Option::None => forall|ws: Seq<u64>| ws.len() == count ==> !(start + 8 * count
                <= bytes@.len() && bytes@.subrange(start as int, start + 8 * count as int)
                == #[trigger] spec_encode_filter(ws)),
        },
{
    let total = bytes.len();
    let mut words: Vec<u64> = Vec::new();
    let mut pos = start;
    let mut kk: usize = 0;
    proof {
        assert(spec_encode_filter(words@).len() == 0);
        assert(bytes@.subrange(start as int, pos as int) =~= spec_encode_filter(words@));
        assert forall|ws: Seq<u64>| ws.len() == count && start + 8 * count <= bytes@.len()
            && bytes@.subrange(start as int, start + 8 * count as int)
            == #[trigger] spec_encode_filter(ws) implies words@ == ws.subrange(0, 0) by {
            assert(ws.subrange(0, 0) =~= words@);
        }
    }
    while kk < count
        invariant
            kk <= count,
            total == bytes@.len(),
            start <= pos <= total,
            pos == start + 8 * kk,
            words@.len() == kk,
            bytes@.subrange(start as int, pos as int) == spec_encode_filter(words@),
            forall|ws: Seq<u64>| ws.len() == count && start + 8 * count <= bytes@.len()
                && bytes@.subrange(start as int, start + 8 * count as int)
                == #[trigger] spec_encode_filter(ws) ==> words@ == ws.subrange(0, kk as int),
        decreases count - kk,
    {
        let ghost oldws = words@;
        proof {
            lemma_auto_spec_u64_to_from_le_bytes();
            // On canonical input the next word is forced.
            assert forall|ws: Seq<u64>| ws.len() == count && start + 8 * count <= bytes@.len()
                && bytes@.subrange(start as int, start + 8 * count as int)
                == #[trigger] spec_encode_filter(ws) implies bytes@.subrange(pos as int, pos + 8)
                == spec_u64_to_le_bytes(ws[kk as int]) by {
                let pre = ws.subrange(0, kk as int);
                let suf = ws.subrange(kk as int, ws.len() as int);
                assert(ws =~= pre + suf);
                lemma_encode_filter_concat(pre, suf);
                lemma_encode_filter_len(pre);
                lemma_encode_filter_len(ws);
                assert(suf[0] == ws[kk as int]);
                let wbytes = spec_u64_to_le_bytes(ws[kk as int]);
                assert(spec_encode_filter(suf) == wbytes + spec_encode_filter(
                    suf.subrange(1, suf.len() as int),
                ));
                assert(bytes@.subrange(pos as int, pos + 8) =~= wbytes) by {
                    assert forall|i: int| 0 <= i < 8 implies #[trigger] bytes@.subrange(
                        pos as int,
                        pos + 8,
                    )[i] == wbytes[i] by {
                        assert(bytes@.subrange(start as int, start + 8 * count as int)[(pos
                            - start) + i] == spec_encode_filter(ws)[(pos - start) + i]);
                        assert(spec_encode_filter(ws) == spec_encode_filter(pre)
                            + spec_encode_filter(suf));
                        assert(spec_encode_filter(suf)[i] == wbytes[i]);
                    }
                }
            }
        }
        let w = match read_u64_at(bytes, pos) {
            Option::Some(v) => v,
            Option::None => {
                proof {
                    lemma_auto_spec_u64_to_from_le_bytes();
                    assert forall|ws: Seq<u64>| ws.len() == count implies !(start + 8 * count
                        <= bytes@.len() && bytes@.subrange(
                        start as int,
                        start + 8 * count as int,
                    ) == #[trigger] spec_encode_filter(ws)) by {
                        if start + 8 * count <= bytes@.len() && bytes@.subrange(
                            start as int,
                            start + 8 * count as int,
                        ) == spec_encode_filter(ws) {
                            assert(pos + 8 <= start + 8 * count);
                            assert(false);
                        }
                    }
                }
                return Option::None;
            }
        };
        words.push(w);
        proof {
            lemma_auto_spec_u64_to_from_le_bytes();
            lemma_encode_filter_snoc(oldws, w);
            assert(words@ =~= oldws.push(w));
            assert(bytes@.subrange(start as int, pos as int + 8) =~= bytes@.subrange(
                start as int,
                pos as int,
            ) + bytes@.subrange(pos as int, pos as int + 8));
            assert forall|ws: Seq<u64>| ws.len() == count && start + 8 * count <= bytes@.len()
                && bytes@.subrange(start as int, start + 8 * count as int)
                == #[trigger] spec_encode_filter(ws) implies words@ == ws.subrange(
                0,
                kk + 1,
            ) by {
                assert(spec_u64_to_le_bytes(w) == spec_u64_to_le_bytes(ws[kk as int]));
                assert(w == ws[kk as int]);
                assert(oldws == ws.subrange(0, kk as int));
                assert(words@ =~= ws.subrange(0, kk + 1));
            }
        }
        pos = pos + 8;
        kk = kk + 1;
    }
    proof {
        assert forall|ws: Seq<u64>| ws.len() == count && start + 8 * count <= bytes@.len()
            && bytes@.subrange(start as int, start + 8 * count as int)
            == #[trigger] spec_encode_filter(ws) implies ws == words@ by {
            assert(ws.subrange(0, count as int) =~= ws);
        }
    }
    Option::Some((words, pos))
}

/// Check whether the records ascend strictly by key.
fn check_sorted(records: &Vec<SSTableRecord>) -> (r: bool)
    ensures
        r == sorted_by_key(records@.map_values(|e: SSTableRecord| e@)),
{
    let ghost rmodel = records@.map_values(|e: SSTableRecord| e@);
    let n = records.len();
    if n == 0 {
        proof {
            lemma_sorted_from_adjacent(rmodel);
        }
        return true;
    }
    let mut t: usize = 0;
    while t < n - 1
        invariant
            n == records@.len(),
            n > 0,
            rmodel == records@.map_values(|e: SSTableRecord| e@),
            t <= n - 1,
            forall|q: int| 0 <= q < t ==> lex_lt((#[trigger] rmodel[q]).key, rmodel[q + 1].key),
        decreases n - t,
    {
        proof {
            assert(records@[t as int]@ == rmodel[t as int]);
            assert(records@[t + 1]@ == rmodel[t + 1]);
        }
        match compare_keys(records[t].key.as_slice(), records[t + 1].key.as_slice()) {
            KeyOrder::Less => {}
            _ => {
                proof {
                    assert(!lex_lt(rmodel[t as int].key, rmodel[t + 1].key));
                    assert(!sorted_by_key(rmodel));
                }
                return false;
            }
        }
        t = t + 1;
    }
    proof {
        lemma_sorted_from_adjacent(rmodel);
    }
    true
}

/// Check whether the filter reports every record's key as possibly present.
fn check_covered(records: &Vec<SSTableRecord>, filter: &BloomFilter) -> (r: bool)
    requires
        filter.wf(),
    ensures
        r == forall|q: int| 0 <= q < records@.len() ==> spec_contains(
            filter@,
            (#[trigger] records@[q])@.key,
        ),
{
    let ghost rmodel = records@.map_values(|e: SSTableRecord| e@);
    let n = records.len();
    let mut c: usize = 0;
    while c < n
        invariant
            n == records@.len(),
            rmodel == records@.map_values(|e: SSTableRecord| e@),
            c <= n,
            filter.wf(),
            forall|q: int| 0 <= q < c ==> spec_contains(filter@, (#[trigger] rmodel[q]).key),
        decreases n - c,
    {
        proof {
            assert(records@[c as int]@ == rmodel[c as int]);
        }
        if !filter.contains(records[c].key.as_slice()) {
            proof {
                assert(!spec_contains(filter@, records@[c as int]@.key));
            }
            return false;
        }
        c = c + 1;
    }
    proof {
        assert forall|q: int| 0 <= q < records@.len() implies spec_contains(
            filter@,
            (#[trigger] records@[q])@.key,
        ) by {
            assert(records@[q]@ == rmodel[q]);
        }
    }
    true
}

/// Pick one consistent segment whose canonical file a byte string is.
proof fn lemma_canonical_witness(bytes: Seq<u8>) -> (w: (
    u64,
    Seq<RecordModel>,
    Seq<(Seq<u8>, u64, u64)>,
    Seq<u64>,
))
    requires
        spec_canonical_segment(bytes),
    ensures
        spec_segment_consistent(w.1, w.2, w.3),
        bytes == spec_encode_sstable(w.0, w.1, w.2, w.3),
{
    choose|id: u64, rs: Seq<RecordModel>, ix: Seq<(Seq<u8>, u64, u64)>, ws: Seq<u64>|
        spec_segment_consistent(rs, ix, ws) && bytes == spec_encode_sstable(id, rs, ix, ws)
}

/// Reassemble: a byte string whose fields all hold a segment's canonical
/// pieces at their canonical places is that segment's canonical file.
#[verifier::rlimit(100)]
#[verifier::spinoff_prover]
proof fn lemma_assemble(
    bytes: Seq<u8>,
    rm: Seq<RecordModel>,
    ixm: Seq<(Seq<u8>, u64, u64)>,
    wm: Seq<u64>,
    id: u64,
    dlen64: u64,
    ne: u64,
    end_data: int,
    ix_end: int,
    meta_start: int,
    fend: int,
    lend: int,
)
    requires
        rm.len() > 0,
        0 <= meta_start <= u64::MAX,
        bytes.len() == lend + 8,
        bytes.subrange(0, 4) == spec_u32_to_le_bytes(SSTABLE_MAGIC),
        bytes.subrange(4, 8) == spec_u32_to_le_bytes(SSTABLE_VERSION),
        bytes.subrange(8, 16) == spec_u64_to_le_bytes(dlen64),
        end_data == 16 + dlen64,
        dlen64 == spec_encode_records(rm).len(),
        bytes.subrange(16, end_data) == spec_encode_records(rm),
        bytes.subrange(end_data, end_data + 8) == spec_u64_to_le_bytes(ixm.len() as u64),
        bytes.subrange(end_data + 8, ix_end) == spec_encode_index(ixm),
        ix_end == end_data + 8 + spec_encode_index(ixm).len(),
        bytes.subrange(ix_end, ix_end + 8) == spec_u64_to_le_bytes(wm.len() as u64),
        bytes.subrange(ix_end + 8, meta_start) == spec_encode_filter(wm),
        meta_start == ix_end + 8 + 8 * wm.len(),
        bytes.subrange(meta_start, meta_start + 8) == spec_u64_to_le_bytes(id),
        bytes.subrange(meta_start + 8, meta_start + 16) == spec_u64_to_le_bytes(ne),
        ne == rm.len(),
        bytes.subrange(meta_start + 16, meta_start + 24) == spec_u64_to_le_bytes(dlen64),
        bytes.subrange(meta_start + 24, meta_start + 32) == spec_u64_to_le_bytes(
            rm[0].key.len() as u64,
        ),
        bytes.subrange(meta_start + 32, fend) == rm[0].key,
        fend == meta_start + 32 + rm[0].key.len(),
        bytes.subrange(fend, fend + 8) == spec_u64_to_le_bytes(
            rm[rm.len() - 1].key.len() as u64,
        ),
        bytes.subrange(fend + 8, lend) == rm[rm.len() - 1].key,
        lend == fend + 8 + rm[rm.len() - 1].key.len(),
        bytes.subrange(lend, lend + 8) == spec_u64_to_le_bytes(meta_start as u64),
    ensures
        bytes == spec_encode_sstable(id, rm, ixm, wm),
{
    lemma_auto_spec_u64_to_from_le_bytes();
    lemma_auto_spec_u32_to_from_le_bytes();
    lemma_encode_filter_len(wm);
    assert(bytes =~= spec_encode_sstable(id, rm, ixm, wm));
}

impl SSTable {
    /// Parse a whole segment file. A segment is returned exactly for the
    /// canonical file of a consistent segment — so parsing cannot silently
    /// reject a file this module wrote — and it is that very segment.
    #[verifier::rlimit(100)]
    #[verifier::spinoff_prover]
    pub fn decode(bytes: &Vec<u8>) -> (r: Option<SSTable>)
        ensures
            match r {
                Option::Some(s) => s.wf() && bytes@ == spec_encode_sstable(
                    s.spec_id(),
                    s@,
                    s.spec_index(),
                    s.spec_filter(),
                ),
                Option::None => !spec_canonical_segment(bytes@),
            },
    {
        let total = bytes.len();
        proof {
            assert(bytes@.len() <= usize::MAX);
        }
        if total < 16 {
            proof {
                if spec_canonical_segment(bytes@) {
                    let w = lemma_canonical_witness(bytes@);
                    lemma_canonical_fields(bytes@, w.0, w.1, w.2, w.3);
                    lemma_encode_records_pos(w.1);
                    assert(false);
                }
            }
            return Option::None;
        }
        let magic = u32_from_le_bytes(vstd::slice::slice_subrange(bytes.as_slice(), 0, 4));
        if magic != SSTABLE_MAGIC {
            proof {
                if spec_canonical_segment(bytes@) {
                    let w = lemma_canonical_witness(bytes@);
                    lemma_canonical_fields(bytes@, w.0, w.1, w.2, w.3);
                    assert(false);
                }
            }
            return Option::None;
        }
        let version = u32_from_le_bytes(vstd::slice::slice_subrange(bytes.as_slice(), 4, 8));
        if version != SSTABLE_VERSION {
            proof {
                if spec_canonical_segment(bytes@) {
                    let w = lemma_canonical_witness(bytes@);
                    lemma_canonical_fields(bytes@, w.0, w.1, w.2, w.3);
                    assert(false);
                }
            }
            return Option::None;
        }
        proof {
            lemma_auto_spec_u32_to_from_le_bytes();
            assert(spec_u32_to_le_bytes(SSTABLE_MAGIC) == bytes@.subrange(0, 4));
            assert(spec_u32_to_le_bytes(SSTABLE_VERSION) == bytes@.subrange(4, 8));
        }
        let dlen64 = match read_u64_at(bytes, 8) {
            Option::Some(v) => v,
            Option::None => {
                proof {
                    assert(false);
                }
                return Option::None;
            }
        };
        if dlen64 > (total - 16) as u64 {
            proof {
                lemma_auto_spec_u64_to_from_le_bytes();
                if spec_canonical_segment(bytes@) {
                    let w = lemma_canonical_witness(bytes@);
                    lemma_canonical_fields(bytes@, w.0, w.1, w.2, w.3);
                    lemma_encode_filter_len(w.3);
                    assert(dlen64 == spec_encode_records(w.1).len() as u64);
                    assert(false);
                }
            }
            return Option::None;
        }
        let dlen = dlen64 as usize;
        let end_data = 16 + dlen;
        proof {
            lemma_auto_spec_u64_to_from_le_bytes();
            if spec_canonical_segment(bytes@) {
                let w = lemma_canonical_witness(bytes@);
                lemma_canonical_fields(bytes@, w.0, w.1, w.2, w.3);
                assert(dlen64 == spec_encode_records(w.1).len() as u64);
                assert(dlen == spec_encode_records(w.1).len());
            }
        }
        let (records, offs) = match parse_data_block(bytes, dlen) {
            Option::Some(p) => p,
            Option::None => {
                proof {
                    if spec_canonical_segment(bytes@) {
                        let w = lemma_canonical_witness(bytes@);
                        lemma_canonical_fields(bytes@, w.0, w.1, w.2, w.3);
                        lemma_auto_spec_u64_to_from_le_bytes();
                        assert(dlen == spec_encode_records(w.1).len());
                        assert(bytes@.subrange(16, 16 + dlen as int) == spec_encode_records(
                            w.1,
                        ));
                        assert(false);
                    }
                }
                return Option::None;
            }
        };
        let n = records.len();
        let ghost rmodel = records@.map_values(|e: SSTableRecord| e@);
        proof {
            if spec_canonical_segment(bytes@) {
                let w = lemma_canonical_witness(bytes@);
                lemma_canonical_fields(bytes@, w.0, w.1, w.2, w.3);
                lemma_auto_spec_u64_to_from_le_bytes();
                assert(dlen == spec_encode_records(w.1).len());
                assert(bytes@.subrange(16, 16 + dlen as int) == spec_encode_records(w.1));
                assert(w.1 == rmodel);
            }
        }
        if n == 0 {
            proof {
                if spec_canonical_segment(bytes@) {
                    let w = lemma_canonical_witness(bytes@);
                    assert(w.1 == rmodel);
                    assert(false);
                }
            }
            return Option::None;
        }
        // Index block.
        let ixcount64 = match read_u64_at(bytes, end_data) {
            Option::Some(v) => v,
            Option::None => {
                proof {
                    if spec_canonical_segment(bytes@) {
                        let w = lemma_canonical_witness(bytes@);
                        lemma_canonical_fields(bytes@, w.0, w.1, w.2, w.3);
                        assert(false);
                    }
                }
                return Option::None;
            }
        };
        if ixcount64 > total as u64 {
            proof {
                lemma_auto_spec_u64_to_from_le_bytes();
                if spec_canonical_segment(bytes@) {
                    let w = lemma_canonical_witness(bytes@);
                    lemma_canonical_fields(bytes@, w.0, w.1, w.2, w.3);
                    lemma_encode_index_len_min(w.2);
                    assert(ixcount64 == w.2.len() as u64);
                    assert(false);
                }
            }
            return Option::None;
        }
        let ixcount = ixcount64 as usize;
        let (index, ix_end) = match parse_index_block(bytes, end_data + 8, ixcount, &records, &offs) {
            Option::Some(p) => p,
            Option::None => {
                proof {
                    lemma_auto_spec_u64_to_from_le_bytes();
                    if spec_canonical_segment(bytes@) {
                        let w = lemma_canonical_witness(bytes@);
                        lemma_canonical_fields(bytes@, w.0, w.1, w.2, w.3);
                        assert(w.1 == rmodel);
                        assert(ixcount64 == w.2.len() as u64);
                        assert(w.2.len() == ixcount);
                        assert(spec_index_facts(w.2, rmodel));
                        assert(end_data + 8 + spec_encode_index(w.2).len() <= bytes@.len());
                        assert(bytes@.subrange(
                            end_data as int + 8,
                            end_data + 8 + spec_encode_index(w.2).len(),
                        ) == spec_encode_index(w.2));
                        assert(false);
                    }
                }
                return Option::None;
            }
        };
        let ghost ixmodel = index@.map_values(|x: IndexEntry| (x.key@, x.ordinal, x.offset));
        proof {
            if spec_canonical_segment(bytes@) {
                let w = lemma_canonical_witness(bytes@);
                lemma_canonical_fields(bytes@, w.0, w.1, w.2, w.3);
                lemma_auto_spec_u64_to_from_le_bytes();
                assert(w.1 == rmodel);
                assert(ixcount64 == w.2.len() as u64);
                assert(w.2.len() == ixcount);
                assert(spec_index_facts(w.2, rmodel));
                assert(end_data + 8 + spec_encode_index(w.2).len() <= bytes@.len());
                assert(bytes@.subrange(
                    end_data as int + 8,
                    end_data + 8 + spec_encode_index(w.2).len(),
                ) == spec_encode_index(w.2));
                assert(w.2 == ixmodel);
                assert(ix_end == end_data + 8 + spec_encode_index(w.2).len());
            }
        }
        // Filter block.
        let wc64 = match read_u64_at(bytes, ix_end) {
            Option::Some(v) => v,
            Option::None => {
                proof {
                    if spec_canonical_segment(bytes@) {
                        let w = lemma_canonical_witness(bytes@);
                        lemma_canonical_fields(bytes@, w.0, w.1, w.2, w.3);
                        lemma_encode_filter_len(w.3);
                        assert(false);
                    }
                }
                return Option::None;
            }
        };
        if wc64 == 0 || wc64 > FILTER_MAX_WORDS as u64 {
            proof {
                lemma_auto_spec_u64_to_from_le_bytes();
                if spec_canonical_segment(bytes@) {
                    let w = lemma_canonical_witness(bytes@);
                    lemma_canonical_fields(bytes@, w.0, w.1, w.2, w.3);
                    assert(wc64 == w.3.len() as u64);
                    assert(false);
                }
            }
            return Option::None;
        }
        let wc = wc64 as usize;
        let (words, meta_start) = match parse_filter_words(bytes, ix_end + 8, wc) {
            Option::Some(p) => p,
            Option::None => {
                proof {
                    lemma_auto_spec_u64_to_from_le_bytes();
                    if spec_canonical_segment(bytes@) {
                        let w = lemma_canonical_witness(bytes@);
                        lemma_canonical_fields(bytes@, w.0, w.1, w.2, w.3);
                        lemma_encode_filter_len(w.3);
                        assert(wc64 == w.3.len() as u64);
                        assert(w.3.len() == wc);
                        assert(ix_end + 8 + 8 * wc <= bytes@.len());
                        assert(bytes@.subrange(ix_end as int + 8, ix_end + 8 + 8 * wc as int)
                            == spec_encode_filter(w.3));
                        assert(false);
                    }
                }
                return Option::None;
            }
        };
        let ghost wmodel = words@;
        proof {
            if spec_canonical_segment(bytes@) {
                let w = lemma_canonical_witness(bytes@);
                lemma_canonical_fields(bytes@, w.0, w.1, w.2, w.3);
                lemma_auto_spec_u64_to_from_le_bytes();
                lemma_encode_filter_len(w.3);
                assert(wc64 == w.3.len() as u64);
                assert(w.3.len() == wc);
                assert(ix_end + 8 + 8 * wc <= bytes@.len());
                assert(bytes@.subrange(ix_end as int + 8, ix_end + 8 + 8 * wc as int)
                    == spec_encode_filter(w.3));
                assert(w.3 == wmodel);
            }
        }
        let filter = BloomFilter::from_words(words);
        // Meta block.
        let id = match read_u64_at(bytes, meta_start) {
            Option::Some(v) => v,
            Option::None => {
                proof {
                    if spec_canonical_segment(bytes@) {
                        let w = lemma_canonical_witness(bytes@);
                        lemma_canonical_fields(bytes@, w.0, w.1, w.2, w.3);
                        assert(false);
                    }
                }
                return Option::None;
            }
        };
        let ne = match read_u64_at(bytes, meta_start + 8) {
            Option::Some(v) => v,
            Option::None => {
                proof {
                    if spec_canonical_segment(bytes@) {
                        let w = lemma_canonical_witness(bytes@);
                        lemma_canonical_fields(bytes@, w.0, w.1, w.2, w.3);
                        assert(false);
                    }
                }
                return Option::None;
            }
        };
        if ne != n as u64 {
            proof {
                lemma_auto_spec_u64_to_from_le_bytes();
                if spec_canonical_segment(bytes@) {
                    let w = lemma_canonical_witness(bytes@);
                    lemma_canonical_fields(bytes@, w.0, w.1, w.2, w.3);
                    assert(ne == w.1.len() as u64);
                    assert(false);
                }
            }
            return Option::None;
        }
        let ts_total = match read_u64_at(bytes, meta_start + 16) {
            Option::Some(v) => v,
            Option::None => {
                proof {
                    if spec_canonical_segment(bytes@) {
                        let w = lemma_canonical_witness(bytes@);
                        lemma_canonical_fields(bytes@, w.0, w.1, w.2, w.3);
                        assert(false);
                    }
                }
                return Option::None;
            }
        };
        if ts_total != dlen64 {
            proof {
                lemma_auto_spec_u64_to_from_le_bytes();
                if spec_canonical_segment(bytes@) {
                    let w = lemma_canonical_witness(bytes@);
                    lemma_canonical_fields(bytes@, w.0, w.1, w.2, w.3);
                    assert(ts_total == spec_encode_records(w.1).len() as u64);
                    assert(dlen64 == spec_encode_records(w.1).len() as u64);
                    assert(false);
                }
            }
            return Option::None;
        }
        let flen64 = match read_u64_at(bytes, meta_start + 24) {
            Option::Some(v) => v,
            Option::None => {
                proof {
                    if spec_canonical_segment(bytes@) {
                        let w = lemma_canonical_witness(bytes@);
                        lemma_canonical_fields(bytes@, w.0, w.1, w.2, w.3);
                        assert(false);
                    }
                }
                return Option::None;
            }
        };
        if flen64 > (total - (meta_start + 32)) as u64 {
            proof {
                lemma_auto_spec_u64_to_from_le_bytes();
                if spec_canonical_segment(bytes@) {
                    let w = lemma_canonical_witness(bytes@);
                    lemma_canonical_fields(bytes@, w.0, w.1, w.2, w.3);
                    assert(flen64 == w.1[0].key.len() as u64);
                    assert(false);
                }
            }
            return Option::None;
        }
        let flen = flen64 as usize;
        let first = vstd::slice::slice_to_vec(
            vstd::slice::slice_subrange(bytes.as_slice(), meta_start + 32, meta_start + 32 + flen),
        );
        let fend = meta_start + 32 + flen;
        match compare_keys(first.as_slice(), records[0].key.as_slice()) {
            KeyOrder::Equal => {}
            _ => {
                proof {
                    lemma_auto_spec_u64_to_from_le_bytes();
                    if spec_canonical_segment(bytes@) {
                        let w = lemma_canonical_witness(bytes@);
                        lemma_canonical_fields(bytes@, w.0, w.1, w.2, w.3);
                        assert(flen64 == w.1[0].key.len() as u64);
                        assert(first@ == w.1[0].key);
                        assert(records@[0]@ == rmodel[0]);
                        assert(false);
                    }
                }
                return Option::None;
            }
        }
        let llen64 = match read_u64_at(bytes, fend) {
            Option::Some(v) => v,
            Option::None => {
                proof {
                    if spec_canonical_segment(bytes@) {
                        let w = lemma_canonical_witness(bytes@);
                        lemma_canonical_fields(bytes@, w.0, w.1, w.2, w.3);
                        lemma_auto_spec_u64_to_from_le_bytes();
                        assert(flen64 == w.1[0].key.len() as u64);
                        assert(false);
                    }
                }
                return Option::None;
            }
        };
        if llen64 > (total - (fend + 8)) as u64 {
            proof {
                lemma_auto_spec_u64_to_from_le_bytes();
                if spec_canonical_segment(bytes@) {
                    let w = lemma_canonical_witness(bytes@);
                    lemma_canonical_fields(bytes@, w.0, w.1, w.2, w.3);
                    assert(flen64 == w.1[0].key.len() as u64);
                    assert(llen64 == w.1[w.1.len() - 1].key.len() as u64);
                    assert(false);
                }
            }
            return Option::None;
        }
        let llen = llen64 as usize;
        let last = vstd::slice::slice_to_vec(
            vstd::slice::slice_subrange(bytes.as_slice(), fend + 8, fend + 8 + llen),
        );
        let lend = fend + 8 + llen;
        proof {
            assert(records@[n - 1]@ == rmodel[n - 1]);
        }
        match compare_keys(last.as_slice(), records[n - 1].key.as_slice()) {
            KeyOrder::Equal => {}
            _ => {
                proof {
                    lemma_auto_spec_u64_to_from_le_bytes();
                    if spec_canonical_segment(bytes@) {
                        let w = lemma_canonical_witness(bytes@);
                        lemma_canonical_fields(bytes@, w.0, w.1, w.2, w.3);
                        assert(flen64 == w.1[0].key.len() as u64);
                        assert(llen64 == w.1[w.1.len() - 1].key.len() as u64);
                        assert(last@ == w.1[w.1.len() - 1].key);
                        assert(false);
                    }
                }
                return Option::None;
            }
        }
        // Trailer: the meta block's offset, then the exact end of the file.
        let moff = match read_u64_at(bytes, lend) {
            Option::Some(v) => v,
            Option::None => {
                proof {
                    if spec_canonical_segment(bytes@) {
                        let w = lemma_canonical_witness(bytes@);
                        lemma_canonical_fields(bytes@, w.0, w.1, w.2, w.3);
                        lemma_auto_spec_u64_to_from_le_bytes();
                        assert(flen64 == w.1[0].key.len() as u64);
                        assert(llen64 == w.1[w.1.len() - 1].key.len() as u64);
                        assert(false);
                    }
                }
                return Option::None;
            }
        };
        if moff != meta_start as u64 {
            proof {
                lemma_auto_spec_u64_to_from_le_bytes();
                if spec_canonical_segment(bytes@) {
                    let w = lemma_canonical_witness(bytes@);
                    lemma_canonical_fields(bytes@, w.0, w.1, w.2, w.3);
                    assert(flen64 == w.1[0].key.len() as u64);
                    assert(llen64 == w.1[w.1.len() - 1].key.len() as u64);
                    assert(lend == bytes@.len() - 8);
                    assert(false);
                }
            }
            return Option::None;
        }
        if lend + 8 != total {
            proof {
                lemma_auto_spec_u64_to_from_le_bytes();
                if spec_canonical_segment(bytes@) {
                    let w = lemma_canonical_witness(bytes@);
                    lemma_canonical_fields(bytes@, w.0, w.1, w.2, w.3);
                    assert(flen64 == w.1[0].key.len() as u64);
                    assert(llen64 == w.1[w.1.len() - 1].key.len() as u64);
                    assert(false);
                }
            }
            return Option::None;
        }
        if !check_sorted(&records) {
            proof {
                if spec_canonical_segment(bytes@) {
                    let w = lemma_canonical_witness(bytes@);
                    lemma_canonical_fields(bytes@, w.0, w.1, w.2, w.3);
                    lemma_auto_spec_u64_to_from_le_bytes();
                    lemma_encode_filter_len(w.3);
                    assert(dlen64 == spec_encode_records(w.1).len() as u64);
                    assert(dlen == spec_encode_records(w.1).len());
                    assert(bytes@.subrange(16, 16 + dlen as int) == spec_encode_records(w.1));
                    assert(w.1 == rmodel);
                    assert(ixcount64 == w.2.len() as u64);
                    assert(w.2.len() == ixcount);
                    assert(spec_index_facts(w.2, rmodel));
                    assert(end_data + 8 + spec_encode_index(w.2).len() <= bytes@.len());
                    assert(bytes@.subrange(
                        end_data as int + 8,
                        end_data + 8 + spec_encode_index(w.2).len(),
                    ) == spec_encode_index(w.2));
                    assert(w.2 == ixmodel);
                    assert(ix_end == end_data + 8 + spec_encode_index(w.2).len());
                    assert(wc64 == w.3.len() as u64);
                    assert(w.3.len() == wc);
                    assert(ix_end + 8 + 8 * wc <= bytes@.len());
                    assert(bytes@.subrange(ix_end as int + 8, ix_end + 8 + 8 * wc as int)
                        == spec_encode_filter(w.3));
                    assert(w.3 == wmodel);
                    assert(false);
                }
            }
            return Option::None;
        }
        if !check_covered(&records, &filter) {
            proof {
                if spec_canonical_segment(bytes@) {
                    let w = lemma_canonical_witness(bytes@);
                    lemma_canonical_fields(bytes@, w.0, w.1, w.2, w.3);
                    lemma_auto_spec_u64_to_from_le_bytes();
                    lemma_encode_filter_len(w.3);
                    assert(dlen64 == spec_encode_records(w.1).len() as u64);
                    assert(dlen == spec_encode_records(w.1).len());
                    assert(bytes@.subrange(16, 16 + dlen as int) == spec_encode_records(w.1));
                    assert(w.1 == rmodel);
                    assert(ixcount64 == w.2.len() as u64);
                    assert(w.2.len() == ixcount);
                    assert(spec_index_facts(w.2, rmodel));
                    assert(end_data + 8 + spec_encode_index(w.2).len() <= bytes@.len());
                    assert(bytes@.subrange(
                        end_data as int + 8,
                        end_data + 8 + spec_encode_index(w.2).len(),
                    ) == spec_encode_index(w.2));
                    assert(w.2 == ixmodel);
                    assert(ix_end == end_data + 8 + spec_encode_index(w.2).len());
                    assert(wc64 == w.3.len() as u64);
                    assert(w.3.len() == wc);
                    assert(ix_end + 8 + 8 * wc <= bytes@.len());
                    assert(bytes@.subrange(ix_end as int + 8, ix_end + 8 + 8 * wc as int)
                        == spec_encode_filter(w.3));
                    assert(w.3 == wmodel);
                    assert forall|q: int| 0 <= q < records@.len() implies spec_contains(
                        filter@,
                        (#[trigger] records@[q])@.key,
                    ) by {
                        assert(records@[q]@ == rmodel[q]);
                        assert(spec_contains(w.3, w.1[q].key));
                    }
                    assert(false);
                }
            }
            return Option::None;
        }
        let metadata = SSTableMetadata {
            id,
            first_key: first,
            last_key: last,
            total_size: ts_total,
            num_entries: ne,
        };
        let seg = SSTable { metadata, records, index, filter };
        proof {
            assert(seg@ == rmodel);
            assert(seg.spec_index() == ixmodel);
            assert(seg.spec_filter() == wmodel);
            assert forall|j: int| 0 <= j < seg.spec_index().len() implies {
                let e = #[trigger] seg.spec_index()[j];
                &&& e.1 < seg@.len()
                &&& seg@[e.1 as int].key == e.0
                &&& e.2 == spec_encode_records(seg@.subrange(0, e.1 as int)).len()
            } by {
                assert(seg.spec_index()[j] == (index@[j].key@, index@[j].ordinal, index@[j].offset));
            }
            assert(seg.wf());
            assert(ixmodel.len() == ixcount64);
            assert(wmodel.len() == wc64);
            assert(ix_end == end_data + 8 + spec_encode_index(ixmodel).len());
            assert(first@ == rmodel[0].key);
            assert(last@ == rmodel[n - 1].key);
            assert(flen == rmodel[0].key.len());
            assert(llen == rmodel[n - 1].key.len());
            lemma_assemble(
                bytes@,
                rmodel,
                ixmodel,
                wmodel,
                id,
                dlen64,
                ne,
                end_data as int,
                ix_end as int,
                meta_start as int,
                fend as int,
                lend as int,
            );
        }
        Option::Some(seg)
    }
}

} // verus!
