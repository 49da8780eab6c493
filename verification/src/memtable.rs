//! Sorted in-memory buffer of the latest written records.
//!
//! Writes are duplicated to the WAL so a MemTable can be recovered after a
//! failure. A MemTable has a fixed capacity threshold; once the tracked size
//! passes it, the table is flushed to disk as a segment file.

use vstd::prelude::*;
use crate::keys::{lex_lt, compare_keys, KeyOrder};
use crate::keys::{lemma_lex_lt_irrefl, lemma_lex_lt_asym, lemma_lex_lt_trans, lemma_lex_lt_total};
use crate::record::{RecordModel, MemTableEntry, sorted_by_key, all_wf, spec_lookup};
use crate::MEM_TABLE_SIZE;

verus! {

/// Saturating addition on the byte-size estimate.
pub open spec fn sat_add(a: nat, b: nat) -> nat {
    if a + b > usize::MAX {
        usize::MAX as nat
    } else {
        a + b
    }
}

/// Saturating subtraction on the byte-size estimate.
pub open spec fn sat_sub(a: nat, b: nat) -> nat {
    if a >= b {
        (a - b) as nat
    } else {
        0
    }
}

/// Insert a record into a key-sorted sequence, replacing the entry with the
/// same key if one exists (last call wins, whatever the timestamps).
pub open spec fn spec_upsert(s: Seq<RecordModel>, r: RecordModel) -> Seq<RecordModel>
    decreases s.len(),
{
    if s.len() == 0 {
        seq![r]
    } else if lex_lt(r.key, s[0].key) {
        seq![r] + s
    } else if r.key == s[0].key {
        seq![r] + s.subrange(1, s.len() as int)
    } else {
        seq![s[0]] + spec_upsert(s.subrange(1, s.len() as int), r)
    }
}

/// The tombstone record a `delete` call writes.
pub open spec fn spec_tombstone(k: Seq<u8>, timestamp: u128) -> RecordModel {
    RecordModel { key: k, value: Option::None, timestamp, deleted: true }
}

/// The record a `set` call writes.
pub open spec fn spec_set_record(k: Seq<u8>, v: Seq<u8>, timestamp: u128) -> RecordModel {
    RecordModel { key: k, value: Option::Some(v), timestamp, deleted: false }
}

/// The tail of a sorted sequence is sorted.
pub proof fn lemma_sorted_tail(s: Seq<RecordModel>)
    requires
        sorted_by_key(s),
        s.len() > 0,
    ensures
        sorted_by_key(s.subrange(1, s.len() as int)),
{
    let t = s.subrange(1, s.len() as int);
    assert forall|p: int, q: int| 0 <= p < q < t.len() implies lex_lt(t[p].key, t[q].key) by {
        assert(t[p] == s[p + 1] && t[q] == s[q + 1]);
    }
}

/// Upsert keeps the sequence sorted, provided the input is sorted.
pub proof fn lemma_upsert_sorted(s: Seq<RecordModel>, r: RecordModel)
    requires
        sorted_by_key(s),
    ensures
        sorted_by_key(spec_upsert(s, r)),
    decreases s.len(),
{
    let u = spec_upsert(s, r);
    if s.len() == 0 {
    } else if lex_lt(r.key, s[0].key) {
        assert forall|p: int, q: int| 0 <= p < q < u.len() implies lex_lt(u[p].key, u[q].key) by {
            if p == 0 {
                if q == 1 {
                } else {
                    lemma_lex_lt_trans(r.key, s[0].key, s[q - 1].key);
                }
            } else {
                assert(u[p] == s[p - 1] && u[q] == s[q - 1]);
            }
        }
    } else if r.key == s[0].key {
        let t = s.subrange(1, s.len() as int);
        assert forall|p: int, q: int| 0 <= p < q < u.len() implies lex_lt(u[p].key, u[q].key) by {
            if p == 0 {
                assert(u[q] == t[q - 1] && t[q - 1] == s[q]);
            } else {
                assert(u[p] == s[p] && u[q] == s[q]);
            }
        }
    } else {
        let t = s.subrange(1, s.len() as int);
        lemma_sorted_tail(s);
        lemma_upsert_sorted(t, r);
        let ut = spec_upsert(t, r);
        lemma_lex_lt_total(r.key, s[0].key);
        assert(lex_lt(s[0].key, r.key));
        lemma_upsert_keys(t, r);
        assert forall|p: int, q: int| 0 <= p < q < u.len() implies lex_lt(u[p].key, u[q].key) by {
            if p == 0 {
                assert(u[q] == ut[q - 1]);
                if ut[q - 1].key == r.key {
                } else {
                    let m = choose|m: int| 0 <= m < t.len() && t[m] == ut[q - 1];
                    assert(t[m] == s[m + 1]);
                }
            } else {
                assert(u[p] == ut[p - 1] && u[q] == ut[q - 1]);
            }
        }
    }
}

/// Every record of an upsert result is the new record or one of the old ones.
pub proof fn lemma_upsert_keys(s: Seq<RecordModel>, r: RecordModel)
    ensures
        forall|i: int| 0 <= i < spec_upsert(s, r).len()
            ==> #[trigger] spec_upsert(s, r)[i] == r
                || exists|m: int| 0 <= m < s.len() && s[m] == spec_upsert(s, r)[i],
    decreases s.len(),
{
    let u = spec_upsert(s, r);
    if s.len() == 0 {
    } else if lex_lt(r.key, s[0].key) {
        assert forall|i: int| 0 <= i < u.len() implies u[i] == r
            || exists|m: int| 0 <= m < s.len() && s[m] == u[i] by {
            if i > 0 {
                assert(s[i - 1] == u[i]);
            }
        }
    } else if r.key == s[0].key {
        assert forall|i: int| 0 <= i < u.len() implies u[i] == r
            || exists|m: int| 0 <= m < s.len() && s[m] == u[i] by {
            if i > 0 {
                assert(s[i] == u[i]);
            }
        }
    } else {
        let t = s.subrange(1, s.len() as int);
        lemma_upsert_keys(t, r);
        let ut = spec_upsert(t, r);
        assert forall|i: int| 0 <= i < u.len() implies u[i] == r
            || exists|m: int| 0 <= m < s.len() && s[m] == u[i] by {
            if i == 0 {
                assert(s[0] == u[0]);
            } else {
                assert(u[i] == ut[i - 1]);
                if ut[i - 1] != r {
                    let m = choose|m: int| 0 <= m < t.len() && t[m] == ut[i - 1];
                    assert(s[m + 1] == u[i]);
                }
            }
        }
    }
}

/// Lookup after upsert finds the new record under its key.
pub proof fn lemma_upsert_lookup_same(s: Seq<RecordModel>, r: RecordModel)
    ensures
        spec_lookup(spec_upsert(s, r), r.key) == Option::Some(r),
    decreases s.len(),
{
    let u = spec_upsert(s, r);
    if s.len() == 0 {
    } else if lex_lt(r.key, s[0].key) {
        assert(u[0] == r);
    } else if r.key == s[0].key {
        assert(u[0] == r);
    } else {
        let t = s.subrange(1, s.len() as int);
        lemma_upsert_lookup_same(t, r);
        lemma_lex_lt_total(r.key, s[0].key);
        assert(u[0] == s[0]);
        assert(u.subrange(1, u.len() as int) =~= spec_upsert(t, r));
    }
}

/// Lookup after upsert is unchanged under every other key.
pub proof fn lemma_upsert_lookup_other(s: Seq<RecordModel>, r: RecordModel, k: Seq<u8>)
    requires
        k != r.key,
    ensures
        spec_lookup(spec_upsert(s, r), k) == spec_lookup(s, k),
    decreases s.len(),
{
    let u = spec_upsert(s, r);
    if s.len() == 0 {
        assert(u[0] == r);
        assert(u.subrange(1, u.len() as int).len() == 0);
        assert(spec_lookup(u.subrange(1, u.len() as int), k) is None);
        assert(spec_lookup(u, k) is None);
        assert(spec_lookup(s, k) is None);
    } else if lex_lt(r.key, s[0].key) {
        assert(u[0] == r);
        assert(u.subrange(1, u.len() as int) =~= s);
        assert(spec_lookup(u, k) == spec_lookup(s, k));
    } else if r.key == s[0].key {
        assert(u[0] == r);
        assert(u.subrange(1, u.len() as int) =~= s.subrange(1, s.len() as int));
        assert(spec_lookup(u, k) == spec_lookup(s.subrange(1, s.len() as int), k));
        assert(spec_lookup(s, k) == spec_lookup(s.subrange(1, s.len() as int), k));
    } else {
        let t = s.subrange(1, s.len() as int);
        lemma_upsert_lookup_other(t, r, k);
        assert(u[0] == s[0]);
        assert(u.subrange(1, u.len() as int) =~= spec_upsert(t, r));
        if s[0].key == k {
            assert(spec_lookup(s, k) == Option::Some(s[0]));
            assert(spec_lookup(u, k) == Option::Some(u[0]));
        } else {
            assert(spec_lookup(u, k) == spec_lookup(spec_upsert(t, r), k));
            assert(spec_lookup(s, k) == spec_lookup(t, k));
        }
    }
}

/// Upsert of a record whose key sits at index `i` replaces that entry.
pub proof fn lemma_upsert_update(s: Seq<RecordModel>, r: RecordModel, i: int)
    requires
        sorted_by_key(s),
        0 <= i < s.len(),
        s[i].key == r.key,
    ensures
        spec_upsert(s, r) == s.update(i, r),
    decreases s.len(),
{
    if i == 0 {
        lemma_lex_lt_irrefl(r.key);
        assert(spec_upsert(s, r) =~= s.update(0, r));
    } else {
        assert(lex_lt(s[0].key, s[i].key));
        lemma_lex_lt_irrefl(s[0].key);
        lemma_lex_lt_asym(s[0].key, r.key);
        let t = s.subrange(1, s.len() as int);
        lemma_sorted_tail(s);
        assert(t[i - 1] == s[i]);
        lemma_upsert_update(t, r, i - 1);
        assert(seq![s[0]] + t.update(i - 1, r) =~= s.update(i, r));
    }
}

/// Upsert of a record whose key is absent inserts it at its sorted position.
pub proof fn lemma_upsert_insert(s: Seq<RecordModel>, r: RecordModel, i: int)
    requires
        sorted_by_key(s),
        0 <= i <= s.len(),
        forall|j: int| 0 <= j < i ==> lex_lt(#[trigger] s[j].key, r.key),
        i < s.len() ==> lex_lt(r.key, s[i].key),
    ensures
        spec_upsert(s, r) == s.insert(i, r),
    decreases s.len(),
{
    if s.len() == 0 {
        assert(spec_upsert(s, r) =~= s.insert(0, r));
    } else if i == 0 {
        assert(lex_lt(r.key, s[0].key));
        assert(spec_upsert(s, r) =~= s.insert(0, r));
    } else {
        assert(lex_lt(s[0].key, r.key));
        lemma_lex_lt_irrefl(s[0].key);
        lemma_lex_lt_asym(s[0].key, r.key);
        let t = s.subrange(1, s.len() as int);
        lemma_sorted_tail(s);
        assert(forall|j: int| 0 <= j < i - 1 ==> #[trigger] t[j] == s[j + 1]);
        if i - 1 < t.len() {
            assert(t[i - 1] == s[i]);
        }
        lemma_upsert_insert(t, r, i - 1);
        assert(seq![s[0]] + t.insert(i - 1, r) =~= s.insert(i, r));
    }
}

/// Tombstone shadowing: a `set` of a key followed by a `delete` of the same
/// key leaves the key reported deleted, and a `delete` followed by a `set`
/// leaves the new value visible — whatever the two timestamps, since the
/// MemTable applies mutations in call order (last call wins in place).
pub proof fn lemma_tombstone_shadowing(
    s: Seq<RecordModel>,
    k: Seq<u8>,
    v: Seq<u8>,
    t1: u128,
    t2: u128,
)
    ensures
        spec_lookup(
            spec_upsert(spec_upsert(s, spec_set_record(k, v, t1)), spec_tombstone(k, t2)),
            k,
        ) == Option::Some(spec_tombstone(k, t2)),
        spec_lookup(
            spec_upsert(spec_upsert(s, spec_tombstone(k, t2)), spec_set_record(k, v, t1)),
            k,
        ) == Option::Some(spec_set_record(k, v, t1)),
{
    lemma_upsert_lookup_same(spec_upsert(s, spec_set_record(k, v, t1)), spec_tombstone(k, t2));
    lemma_upsert_lookup_same(spec_upsert(s, spec_tombstone(k, t2)), spec_set_record(k, v, t1));
}

/// MemTable holds a key-sorted list of the latest written records.
pub struct MemTable {
    entries: Vec<MemTableEntry>,
    size: usize,
    cap: usize,
}

impl View for MemTable {
    type V = Seq<RecordModel>;

    closed spec fn view(&self) -> Seq<RecordModel> {
        self.entries@.map_values(|e: MemTableEntry| e@)
    }
}

impl MemTable {
    /// Entries are strictly sorted by key, with no duplicates, and each is
    /// well formed.
    pub open spec fn wf(&self) -> bool {
        sorted_by_key(self@) && all_wf(self@)
    }

    /// The tracked size estimate, in bytes.
    pub closed spec fn spec_size(&self) -> nat {
        self.size as nat
    }

    /// The capacity threshold, in bytes.
    pub closed spec fn spec_cap(&self) -> nat {
        self.cap as nat
    }

    /// Create an empty MemTable with the default capacity threshold.
    pub fn new() -> (r: MemTable)
        ensures
            r.wf(),
            r@ == Seq::<RecordModel>::empty(),
            r.spec_size() == 0,
            r.spec_cap() == MEM_TABLE_SIZE,
    {
        let r = MemTable { entries: Vec::new(), size: 0, cap: MEM_TABLE_SIZE };
        proof {
            assert(r@ =~= Seq::<RecordModel>::empty());
        }
        r
    }

    /// Capacity threshold of this MemTable.
    pub fn cap(&self) -> (r: usize)
        ensures
            r == self.spec_cap(),
    {
        self.cap
    }

    /// Tracked size estimate of this MemTable.
    pub fn size(&self) -> (r: usize)
        ensures
            r == self.spec_size(),
    {
        self.size
    }

    /// Number of entries in the MemTable.
    pub fn len(&self) -> (r: usize)
        ensures
            r == self@.len(),
    {
        self.entries.len()
    }

    /// Check if the MemTable is empty.
    pub fn is_empty(&self) -> (r: bool)
        ensures
            r == (self@.len() == 0),
    {
        self.len() == 0
    }

    /// Binary search over the sorted entries. `Ok` carries the index of the
    /// entry holding the key; `Err` carries the index to insert at.
    fn get_index(&self, key: &[u8]) -> (r: Result<usize, usize>)
        requires
            self.wf(),
        ensures
            match r {
                Result::Ok(i) => 0 <= i < self@.len() && self@[i as int].key == key@,
                Result::Err(i) => i <= self@.len()
                    && (forall|j: int| 0 <= j < i ==> lex_lt(#[trigger] self@[j].key, key@))
                    && (forall|j: int| i <= j < self@.len() ==> lex_lt(key@, #[trigger] self@[j].key)),
            },
    {
        let ghost s = self@;
        let mut lo: usize = 0;
        let mut hi: usize = self.entries.len();
        while lo < hi
            invariant
                self.wf(),
                s == self@,
                lo <= hi <= s.len(),
                s.len() == self.entries.len(),
                forall|j: int| 0 <= j < lo ==> lex_lt(#[trigger] s[j].key, key@),
                forall|j: int| hi <= j < s.len() ==> lex_lt(key@, #[trigger] s[j].key),
            decreases hi - lo,
        {
            let mid = lo + (hi - lo) / 2;
            let e = &self.entries[mid];
            proof {
                assert(e@ == s[mid as int]);
            }
            match compare_keys(e.key.as_slice(), key) {
                KeyOrder::Less => {
                    proof {
                        assert forall|j: int| 0 <= j < mid + 1 implies lex_lt(#[trigger] s[j].key, key@) by {
                            if j < mid {
                                lemma_lex_lt_trans(s[j].key, s[mid as int].key, key@);
                            }
                        }
                    }
                    lo = mid + 1;
                }
                KeyOrder::Equal => {
                    return Result::Ok(mid);
                }
                KeyOrder::Greater => {
                    proof {
                        assert forall|j: int| mid <= j < s.len() implies lex_lt(key@, #[trigger] s[j].key) by {
                            if j > mid {
                                lemma_lex_lt_trans(key@, s[mid as int].key, s[j].key);
                            }
                        }
                    }
                    hi = mid;
                }
            }
        }
        Result::Err(lo)
    }

    /// Set a key-value pair in the MemTable: replace in place on a key hit,
    /// insert at the sorted position on a miss.
    pub fn set(&mut self, key: &[u8], value: &[u8], timestamp: u128)
        requires
            old(self).wf(),
        ensures
            final(self).wf(),
            final(self)@ == spec_upsert(old(self)@, spec_set_record(key@, value@, timestamp)),
            spec_lookup(final(self)@, key@) == Option::Some(spec_set_record(key@, value@, timestamp)),
            forall|k: Seq<u8>| k != key@ ==> spec_lookup(final(self)@, k) == spec_lookup(old(self)@, k),
            final(self).spec_cap() == old(self).spec_cap(),
            final(self).spec_size() == match spec_lookup(old(self)@, key@) {
                Option::Some(prev) => match prev.value {
                    Option::Some(v) => if value@.len() < v.len() {
                        sat_sub(old(self).spec_size(), (v.len() - value@.len()) as nat)
                    } else {
                        sat_add(old(self).spec_size(), (value@.len() - v.len()) as nat)
                    },
                    Option::None => sat_add(old(self).spec_size(), value@.len()),
                },
                Option::None => sat_add(
                    sat_add(sat_add(old(self).spec_size(), key@.len()), value@.len()),
                    17,
                ),
            },
    {
        let ghost r = spec_set_record(key@, value@, timestamp);
        let entry = MemTableEntry {
            key: vstd::slice::slice_to_vec(key),
            value: Option::Some(vstd::slice::slice_to_vec(value)),
            timestamp,
            deleted: false,
        };
        proof {
            assert(entry@ == r);
        }
        match self.get_index(key) {
            Result::Ok(idx) => {
                proof {
                    crate::record::lemma_lookup_at(old(self)@, idx as int);
                }
                match &self.entries[idx].value {
                    Option::Some(v) => {
                        if value.len() < v.len() {
                            let shrink = v.len() - value.len();
                            self.size = self.size.saturating_sub(shrink);
                        } else {
                            let grow = value.len() - v.len();
                            self.size = self.size.saturating_add(grow);
                        }
                    }
                    Option::None => {
                        self.size = self.size.saturating_add(value.len());
                    }
                }
                self.entries.set(idx, entry);
                proof {
                    assert(self@ =~= old(self)@.update(idx as int, r));
                    lemma_upsert_update(old(self)@, r, idx as int);
                }
            }
            Result::Err(idx) => {
                proof {
                    assert forall|i: int| 0 <= i < old(self)@.len() implies (#[trigger] old(
                        self,
                    )@[i]).key != key@ by {
                        lemma_lex_lt_irrefl(key@);
                    }
                    crate::record::lemma_lookup_none(old(self)@, key@);
                }
                self.size = self
                    .size
                    .saturating_add(key.len())
                    .saturating_add(value.len())
                    .saturating_add(17);
                self.entries.insert(idx, entry);
                proof {
                    assert(self@ =~= old(self)@.insert(idx as int, r));
                    lemma_upsert_insert(old(self)@, r, idx as int);
                }
            }
        }
        proof {
            lemma_upsert_sorted(old(self)@, r);
            lemma_upsert_keys(old(self)@, r);
            assert forall|i: int| 0 <= i < self@.len() implies (#[trigger] self@[i]).wf() by {
                if self@[i] != r {
                    let m = choose|m: int| 0 <= m < old(self)@.len() && old(self)@[m] == self@[i];
                    assert(old(self)@[m].wf());
                }
            }
            lemma_upsert_lookup_same(old(self)@, r);
            assert forall|k: Seq<u8>| k != key@ implies spec_lookup(self@, k) == spec_lookup(
                old(self)@,
                k,
            ) by {
                lemma_upsert_lookup_other(old(self)@, r, k);
            }
        }
    }

    /// Delete a key from the MemTable by writing a tombstone: replace in
    /// place on a key hit, insert the tombstone at the sorted position on a
    /// miss. The tombstone shadows whatever was stored before, whatever the
    /// timestamps (last call wins).
    pub fn delete(&mut self, key: &[u8], timestamp: u128)
        requires
            old(self).wf(),
        ensures
            final(self).wf(),
            final(self)@ == spec_upsert(old(self)@, spec_tombstone(key@, timestamp)),
            spec_lookup(final(self)@, key@) == Option::Some(spec_tombstone(key@, timestamp)),
            forall|k: Seq<u8>| k != key@ ==> spec_lookup(final(self)@, k) == spec_lookup(old(self)@, k),
            final(self).spec_cap() == old(self).spec_cap(),
            final(self).spec_size() == match spec_lookup(old(self)@, key@) {
                Option::Some(prev) => match prev.value {
                    Option::Some(v) => sat_sub(old(self).spec_size(), v.len()),
                    Option::None => old(self).spec_size(),
                },
                Option::None => sat_add(sat_add(old(self).spec_size(), key@.len()), 17),
            },
    {
        let ghost r = spec_tombstone(key@, timestamp);
        let entry = MemTableEntry {
            key: vstd::slice::slice_to_vec(key),
            value: Option::None,
            timestamp,
            deleted: true,
        };
        proof {
            assert(entry@ == r);
        }
        match self.get_index(key) {
            Result::Ok(idx) => {
                proof {
                    crate::record::lemma_lookup_at(old(self)@, idx as int);
                }
                match &self.entries[idx].value {
                    Option::Some(v) => {
                        let shrink = v.len();
                        self.size = self.size.saturating_sub(shrink);
                    }
                    Option::None => {}
                }
                self.entries.set(idx, entry);
                proof {
                    assert(self@ =~= old(self)@.update(idx as int, r));
                    lemma_upsert_update(old(self)@, r, idx as int);
                }
            }
            Result::Err(idx) => {
                proof {
                    assert forall|i: int| 0 <= i < old(self)@.len() implies (#[trigger] old(
                        self,
                    )@[i]).key != key@ by {
                        lemma_lex_lt_irrefl(key@);
                    }
                    crate::record::lemma_lookup_none(old(self)@, key@);
                }
                self.size = self.size.saturating_add(key.len()).saturating_add(17);
                self.entries.insert(idx, entry);
                proof {
                    assert(self@ =~= old(self)@.insert(idx as int, r));
                    lemma_upsert_insert(old(self)@, r, idx as int);
                }
            }
        }
        proof {
            lemma_upsert_sorted(old(self)@, r);
            lemma_upsert_keys(old(self)@, r);
            assert forall|i: int| 0 <= i < self@.len() implies (#[trigger] self@[i]).wf() by {
                if self@[i] != r {
                    let m = choose|m: int| 0 <= m < old(self)@.len() && old(self)@[m] == self@[i];
                    assert(old(self)@[m].wf());
                }
            }
            lemma_upsert_lookup_same(old(self)@, r);
            assert forall|k: Seq<u8>| k != key@ implies spec_lookup(self@, k) == spec_lookup(
                old(self)@,
                k,
            ) by {
                lemma_upsert_lookup_other(old(self)@, r, k);
            }
        }
    }

    /// Get the entry stored under a key, tombstones included; `None` when
    /// the key was never seen by this MemTable.
    pub fn get(&self, key: &[u8]) -> (r: Option<MemTableEntry>)
        requires
            self.wf(),
        ensures
            match r {
                Option::Some(e) => spec_lookup(self@, key@) == Option::Some(e@),
                Option::None => spec_lookup(self@, key@) is None,
            },
    {
        match self.get_index(key) {
            Result::Ok(idx) => {
                let e = &self.entries[idx];
                proof {
                    crate::record::lemma_lookup_at(self@, idx as int);
                }
                let copy = MemTableEntry {
                    key: vstd::slice::slice_to_vec(e.key.as_slice()),
                    value: match &e.value {
                        Option::Some(v) => Option::Some(vstd::slice::slice_to_vec(v.as_slice())),
                        Option::None => Option::None,
                    },
                    timestamp: e.timestamp,
                    deleted: e.deleted,
                };
                proof {
                    assert(copy@ == self@[idx as int]);
                }
                Option::Some(copy)
            }
            Result::Err(_) => {
                proof {
                    assert forall|i: int| 0 <= i < self@.len() implies (#[trigger] self@[i]).key
                        != key@ by {
                        lemma_lex_lt_irrefl(key@);
                    }
                    crate::record::lemma_lookup_none(self@, key@);
                }
                Option::None
            }
        }
    }

    /// Borrow the sorted entries, for the flush path.
    pub fn entries(&self) -> (r: &Vec<MemTableEntry>)
        ensures
            r@.map_values(|e: MemTableEntry| e@) == self@,
    {
        &self.entries
    }
}

impl Default for MemTable {
    fn default() -> (r: Self)
        ensures
            r.wf(),
            r@ == Seq::<RecordModel>::empty(),
            r.spec_size() == 0,
            r.spec_cap() == MEM_TABLE_SIZE,
    {
        Self::new()
    }
}

} // verus!
