//! The universal mutation unit: a key, an optional value (absent for
//! tombstones), a timestamp, and a tombstone flag — and the spec-level
//! model shared by the WAL, the MemTable and the segment files.

use vstd::prelude::*;
use crate::keys::lex_lt;

verus! {

/// Mathematical model of one record.
pub ghost struct RecordModel {
    pub key: Seq<u8>,
    pub value: Option<Seq<u8>>,
    pub timestamp: u128,
    pub deleted: bool,
}

impl RecordModel {
    /// A record is well formed when it carries a value exactly when it is
    /// not a tombstone.
    pub open spec fn wf(self) -> bool {
        self.deleted <==> self.value is None
    }
}

/// One entry read from or written to a write-ahead log.
pub struct WALEntry {
    pub key: Vec<u8>,
    pub value: Option<Vec<u8>>,
    pub timestamp: u128,
    pub deleted: bool,
}

impl View for WALEntry {
    type V = RecordModel;

    open spec fn view(&self) -> RecordModel {
        RecordModel {
            key: self.key@,
            value: match self.value {
                Option::Some(v) => Option::Some(v@),
                Option::None => Option::None,
            },
            timestamp: self.timestamp,
            deleted: self.deleted,
        }
    }
}

/// One entry of a MemTable.
pub struct MemTableEntry {
    pub key: Vec<u8>,
    pub value: Option<Vec<u8>>,
    pub timestamp: u128,
    pub deleted: bool,
}

impl View for MemTableEntry {
    type V = RecordModel;

    open spec fn view(&self) -> RecordModel {
        RecordModel {
            key: self.key@,
            value: match self.value {
                Option::Some(v) => Option::Some(v@),
                Option::None => Option::None,
            },
            timestamp: self.timestamp,
            deleted: self.deleted,
        }
    }
}

/// One record of a segment file's data block.
pub struct SSTableRecord {
    pub key: Vec<u8>,
    pub value: Option<Vec<u8>>,
    pub timestamp: u128,
    pub deleted: bool,
}

impl View for SSTableRecord {
    type V = RecordModel;

    open spec fn view(&self) -> RecordModel {
        RecordModel {
            key: self.key@,
            value: match self.value {
                Option::Some(v) => Option::Some(v@),
                Option::None => Option::None,
            },
            timestamp: self.timestamp,
            deleted: self.deleted,
        }
    }
}

/// A sequence of records strictly ascending by key (hence without
/// duplicate keys).
pub open spec fn sorted_by_key(s: Seq<RecordModel>) -> bool {
    forall|i: int, j: int| 0 <= i < j < s.len() ==> lex_lt(#[trigger] s[i].key, #[trigger] s[j].key)
}

/// All records of the sequence are well formed.
pub open spec fn all_wf(s: Seq<RecordModel>) -> bool {
    forall|i: int| 0 <= i < s.len() ==> (#[trigger] s[i]).wf()
}

/// The record stored under `k`, if any: the first one whose key is `k`.
pub open spec fn spec_lookup(s: Seq<RecordModel>, k: Seq<u8>) -> Option<RecordModel>
    decreases s.len(),
{
    if s.len() == 0 {
        Option::None
    } else if s[0].key == k {
        Option::Some(s[0])
    } else {
        spec_lookup(s.subrange(1, s.len() as int), k)
    }
}

/// A record at index `i` is found by lookup of its key, provided the
/// sequence is sorted.
pub proof fn lemma_lookup_at(s: Seq<RecordModel>, i: int)
    requires
        sorted_by_key(s),
        0 <= i < s.len(),
    ensures
        spec_lookup(s, s[i].key) == Option::Some(s[i]),
    decreases s.len(),
{
    if i > 0 {
        crate::keys::lemma_lex_lt_irrefl(s[i].key);
        assert(s[0].key != s[i].key);
        let t = s.subrange(1, s.len() as int);
        assert(t[i - 1] == s[i]);
        assert(sorted_by_key(t)) by {
            assert forall|p: int, q: int| 0 <= p < q < t.len() implies lex_lt(t[p].key, t[q].key) by {
                assert(t[p] == s[p + 1] && t[q] == s[q + 1]);
            }
        }
        lemma_lookup_at(t, i - 1);
    }
}

/// When no index holds the key, lookup finds nothing.
pub proof fn lemma_lookup_none(s: Seq<RecordModel>, k: Seq<u8>)
    requires
        forall|i: int| 0 <= i < s.len() ==> (#[trigger] s[i]).key != k,
    ensures
        spec_lookup(s, k) is None,
    decreases s.len(),
{
    if s.len() > 0 {
        let t = s.subrange(1, s.len() as int);
        assert(forall|i: int| 0 <= i < t.len() ==> (#[trigger] t[i]).key != k) by {
            assert(forall|i: int| 0 <= i < t.len() ==> #[trigger] t[i] == s[i + 1]);
        }
        lemma_lookup_none(t, k);
    }
}

/// A sequence whose adjacent records ascend by key is sorted throughout.
pub proof fn lemma_sorted_from_adjacent(s: Seq<RecordModel>)
    requires
        forall|i: int| 0 <= i < s.len() - 1 ==> lex_lt(
            (#[trigger] s[i]).key,
            s[i + 1].key,
        ),
    ensures
        sorted_by_key(s),
{
    assert forall|i: int, j: int| 0 <= i < j < s.len() implies lex_lt(
        (#[trigger] s[i]).key,
        (#[trigger] s[j]).key,
    ) by {
        lemma_lex_lt_span(s, i, j);
    }
}

/// Keys ascend from any index to any later one, one adjacent step at a
/// time.
proof fn lemma_lex_lt_span(s: Seq<RecordModel>, i: int, j: int)
    requires
        forall|p: int| 0 <= p < s.len() - 1 ==> lex_lt(
            (#[trigger] s[p]).key,
            s[p + 1].key,
        ),
        0 <= i < j < s.len(),
    ensures
        lex_lt(s[i].key, s[j].key),
    decreases j - i,
{
    if j == i + 1 {
    } else {
        lemma_lex_lt_span(s, i, j - 1);
        crate::keys::lemma_lex_lt_trans(s[i].key, s[j - 1].key, s[j].key);
    }
}

} // verus!
