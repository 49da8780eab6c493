//! Compaction: merging sorted segments into fewer, larger ones, reclaiming
//! the space held by overwritten and deleted keys.
//!
//! The merge walks one cursor per input in key order; for a key present in
//! both inputs the newest record wins (higher timestamp; on a tie the newer
//! input wins). When the output level has no older level beneath it that a
//! tombstone would still need to shadow, tombstones are dropped instead of
//! being rewritten.

use vstd::prelude::*;
use crate::keys::{lex_lt, compare_keys, KeyOrder};
use crate::keys::{lemma_lex_lt_irrefl, lemma_lex_lt_asym, lemma_lex_lt_trans, lemma_lex_lt_total};
use crate::record::{RecordModel, SSTableRecord, sorted_by_key, all_wf, spec_lookup};
use crate::record::{lemma_lookup_none};
use crate::memtable::lemma_sorted_tail;
use crate::sstable::SSTable;

verus! {

/// Merge two key-sorted runs, `b` the newer: one record per distinct key,
/// the one with the higher timestamp (ties to `b`).
pub open spec fn spec_merge2(a: Seq<RecordModel>, b: Seq<RecordModel>) -> Seq<RecordModel>
    decreases a.len() + b.len(),
{
    if a.len() == 0 {
        b
    } else if b.len() == 0 {
        a
    } else if lex_lt(a[0].key, b[0].key) {
        seq![a[0]] + spec_merge2(a.subrange(1, a.len() as int), b)
    } else if lex_lt(b[0].key, a[0].key) {
        seq![b[0]] + spec_merge2(a, b.subrange(1, b.len() as int))
    } else {
        seq![if a[0].timestamp > b[0].timestamp {
            a[0]
        } else {
            b[0]
        }] + spec_merge2(a.subrange(1, a.len() as int), b.subrange(1, b.len() as int))
    }
}

/// What a lookup in the merge of two runs returns, given what it returns
/// in each: the newer record when both hold the key.
pub open spec fn spec_merge_lookup(a: Option<RecordModel>, b: Option<RecordModel>) -> Option<
    RecordModel,
> {
    match (a, b) {
        (Option::Some(x), Option::Some(y)) => Option::Some(
            if x.timestamp > y.timestamp {
                x
            } else {
                y
            },
        ),
        (Option::Some(x), Option::None) => Option::Some(x),
        (Option::None, y) => y,
    }
}

/// The run with its tombstones dropped.
pub open spec fn spec_live(s: Seq<RecordModel>) -> Seq<RecordModel>
    decreases s.len(),
{
    if s.len() == 0 {
        s
    } else if s[0].deleted {
        spec_live(s.subrange(1, s.len() as int))
    } else {
        seq![s[0]] + spec_live(s.subrange(1, s.len() as int))
    }
}

/// Every record of a merge comes from one of the inputs.
pub proof fn lemma_merge2_mem(a: Seq<RecordModel>, b: Seq<RecordModel>)
    ensures
        forall|i: int| 0 <= i < spec_merge2(a, b).len()
            ==> (exists|p: int| 0 <= p < a.len() && a[p] == #[trigger] spec_merge2(a, b)[i])
                || (exists|q: int| 0 <= q < b.len() && b[q] == spec_merge2(a, b)[i]),
    decreases a.len() + b.len(),
{
    let m = spec_merge2(a, b);
    if a.len() == 0 || b.len() == 0 {
    } else if lex_lt(a[0].key, b[0].key) {
        let at = a.subrange(1, a.len() as int);
        lemma_merge2_mem(at, b);
        let mt = spec_merge2(at, b);
        assert forall|i: int| 0 <= i < m.len() implies (exists|p: int|
            0 <= p < a.len() && a[p] == #[trigger] m[i]) || (exists|q: int|
            0 <= q < b.len() && b[q] == m[i]) by {
            if i == 0 {
                assert(a[0] == m[0]);
            } else {
                assert(m[i] == mt[i - 1]);
                if exists|p: int| 0 <= p < at.len() && at[p] == mt[i - 1] {
                    let p = choose|p: int| 0 <= p < at.len() && at[p] == mt[i - 1];
                    assert(a[p + 1] == m[i]);
                }
            }
        }
    } else if lex_lt(b[0].key, a[0].key) {
        let bt = b.subrange(1, b.len() as int);
        lemma_merge2_mem(a, bt);
        let mt = spec_merge2(a, bt);
        assert forall|i: int| 0 <= i < m.len() implies (exists|p: int|
            0 <= p < a.len() && a[p] == #[trigger] m[i]) || (exists|q: int|
            0 <= q < b.len() && b[q] == m[i]) by {
            if i == 0 {
                assert(b[0] == m[0]);
            } else {
                assert(m[i] == mt[i - 1]);
                if exists|q: int| 0 <= q < bt.len() && bt[q] == mt[i - 1] {
                    let q = choose|q: int| 0 <= q < bt.len() && bt[q] == mt[i - 1];
                    assert(b[q + 1] == m[i]);
                }
            }
        }
    } else {
        let at = a.subrange(1, a.len() as int);
        let bt = b.subrange(1, b.len() as int);
        lemma_merge2_mem(at, bt);
        let mt = spec_merge2(at, bt);
        assert forall|i: int| 0 <= i < m.len() implies (exists|p: int|
            0 <= p < a.len() && a[p] == #[trigger] m[i]) || (exists|q: int|
            0 <= q < b.len() && b[q] == m[i]) by {
            if i == 0 {
                assert(m[0] == a[0] || m[0] == b[0]);
            } else {
                assert(m[i] == mt[i - 1]);
                if exists|p: int| 0 <= p < at.len() && at[p] == mt[i - 1] {
                    let p = choose|p: int| 0 <= p < at.len() && at[p] == mt[i - 1];
                    assert(a[p + 1] == m[i]);
                } else {
                    let q = choose|q: int| 0 <= q < bt.len() && bt[q] == mt[i - 1];
                    assert(b[q + 1] == m[i]);
                }
            }
        }
    }
}

/// The merge of two sorted runs is sorted.
pub proof fn lemma_merge2_sorted(a: Seq<RecordModel>, b: Seq<RecordModel>)
    requires
        sorted_by_key(a),
        sorted_by_key(b),
    ensures
        sorted_by_key(spec_merge2(a, b)),
    decreases a.len() + b.len(),
{
    let m = spec_merge2(a, b);
    if a.len() == 0 || b.len() == 0 {
    } else {
        let at = a.subrange(1, a.len() as int);
        let bt = b.subrange(1, b.len() as int);
        lemma_sorted_tail(a);
        lemma_sorted_tail(b);
        if lex_lt(a[0].key, b[0].key) {
            lemma_merge2_sorted(at, b);
            lemma_merge2_mem(at, b);
            let mt = spec_merge2(at, b);
            assert forall|p: int, q: int| 0 <= p < q < m.len() implies lex_lt(
                m[p].key,
                m[q].key,
            ) by {
                if p == 0 {
                    assert(m[q] == mt[q - 1]);
                    if exists|x: int| 0 <= x < at.len() && at[x] == mt[q - 1] {
                        let x = choose|x: int| 0 <= x < at.len() && at[x] == mt[q - 1];
                        assert(at[x] == a[x + 1]);
                        assert(lex_lt(a[0].key, a[x + 1].key));
                    } else {
                        let x = choose|x: int| 0 <= x < b.len() && b[x] == mt[q - 1];
                        if x > 0 {
                            lemma_lex_lt_trans(a[0].key, b[0].key, b[x].key);
                        }
                    }
                } else {
                    assert(m[p] == mt[p - 1] && m[q] == mt[q - 1]);
                }
            }
        } else if lex_lt(b[0].key, a[0].key) {
            lemma_merge2_sorted(a, bt);
            lemma_merge2_mem(a, bt);
            let mt = spec_merge2(a, bt);
            assert forall|p: int, q: int| 0 <= p < q < m.len() implies lex_lt(
                m[p].key,
                m[q].key,
            ) by {
                if p == 0 {
                    assert(m[q] == mt[q - 1]);
                    if exists|x: int| 0 <= x < bt.len() && bt[x] == mt[q - 1] {
                        let x = choose|x: int| 0 <= x < bt.len() && bt[x] == mt[q - 1];
                        assert(bt[x] == b[x + 1]);
                        assert(lex_lt(b[0].key, b[x + 1].key));
                    } else {
                        let x = choose|x: int| 0 <= x < a.len() && a[x] == mt[q - 1];
                        if x > 0 {
                            lemma_lex_lt_trans(b[0].key, a[0].key, a[x].key);
                        }
                    }
                } else {
                    assert(m[p] == mt[p - 1] && m[q] == mt[q - 1]);
                }
            }
        } else {
            lemma_lex_lt_total(a[0].key, b[0].key);
            assert(a[0].key == b[0].key);
            lemma_merge2_sorted(at, bt);
            lemma_merge2_mem(at, bt);
            let mt = spec_merge2(at, bt);
            assert forall|p: int, q: int| 0 <= p < q < m.len() implies lex_lt(
                m[p].key,
                m[q].key,
            ) by {
                if p == 0 {
                    assert(m[0].key == a[0].key);
                    assert(m[q] == mt[q - 1]);
                    if exists|x: int| 0 <= x < at.len() && at[x] == mt[q - 1] {
                        let x = choose|x: int| 0 <= x < at.len() && at[x] == mt[q - 1];
                        assert(at[x] == a[x + 1]);
                        assert(lex_lt(a[0].key, a[x + 1].key));
                    } else {
                        let x = choose|x: int| 0 <= x < bt.len() && bt[x] == mt[q - 1];
                        assert(bt[x] == b[x + 1]);
                        assert(lex_lt(b[0].key, b[x + 1].key));
                    }
                } else {
                    assert(m[p] == mt[p - 1] && m[q] == mt[q - 1]);
                }
            }
        }
    }
}

/// What a lookup finds in the merge of two sorted runs: the newer of what
/// it finds in each.
pub proof fn lemma_merge2_lookup(a: Seq<RecordModel>, b: Seq<RecordModel>, k: Seq<u8>)
    requires
        sorted_by_key(a),
        sorted_by_key(b),
    ensures
        spec_lookup(spec_merge2(a, b), k) == spec_merge_lookup(
            spec_lookup(a, k),
            spec_lookup(b, k),
        ),
    decreases a.len() + b.len(),
{
    let m = spec_merge2(a, b);
    if a.len() == 0 {
        assert(spec_lookup(a, k) is None);
    } else if b.len() == 0 {
        assert(spec_lookup(b, k) is None);
    } else {
        let at = a.subrange(1, a.len() as int);
        let bt = b.subrange(1, b.len() as int);
        lemma_sorted_tail(a);
        lemma_sorted_tail(b);
        if lex_lt(a[0].key, b[0].key) {
            let mt = spec_merge2(at, b);
            assert(m == seq![a[0]] + mt);
            assert(m[0] == a[0]);
            assert(m.subrange(1, m.len() as int) =~= mt);
            if a[0].key == k {
                assert(spec_lookup(a, k) == Option::Some(a[0]));
                assert forall|i: int| 0 <= i < b.len() implies (#[trigger] b[i]).key != k by {
                    if i > 0 {
                        lemma_lex_lt_trans(k, b[0].key, b[i].key);
                    }
                    lemma_lex_lt_irrefl(k);
                    lemma_lex_lt_asym(k, b[i].key);
                }
                lemma_lookup_none(b, k);
                assert(spec_lookup(m, k) == Option::Some(a[0]));
            } else {
                lemma_merge2_lookup(at, b, k);
                assert(spec_lookup(m, k) == spec_lookup(mt, k));
                assert(spec_lookup(a, k) == spec_lookup(at, k));
            }
        } else if lex_lt(b[0].key, a[0].key) {
            let mt = spec_merge2(a, bt);
            assert(m == seq![b[0]] + mt);
            assert(m[0] == b[0]);
            assert(m.subrange(1, m.len() as int) =~= mt);
            if b[0].key == k {
                assert(spec_lookup(b, k) == Option::Some(b[0]));
                assert forall|i: int| 0 <= i < a.len() implies (#[trigger] a[i]).key != k by {
                    if i > 0 {
                        lemma_lex_lt_trans(k, a[0].key, a[i].key);
                    }
                    lemma_lex_lt_irrefl(k);
                    lemma_lex_lt_asym(k, a[i].key);
                }
                lemma_lookup_none(a, k);
                assert(spec_lookup(m, k) == Option::Some(b[0]));
            } else {
                lemma_merge2_lookup(a, bt, k);
                assert(spec_lookup(m, k) == spec_lookup(mt, k));
                assert(spec_lookup(b, k) == spec_lookup(bt, k));
            }
        } else {
            lemma_lex_lt_total(a[0].key, b[0].key);
            assert(a[0].key == b[0].key);
            let h = if a[0].timestamp > b[0].timestamp {
                a[0]
            } else {
                b[0]
            };
            let mt = spec_merge2(at, bt);
            assert(m == seq![h] + mt);
            assert(m[0] == h);
            assert(m.subrange(1, m.len() as int) =~= mt);
            if a[0].key == k {
                assert(spec_lookup(a, k) == Option::Some(a[0]));
                assert(spec_lookup(b, k) == Option::Some(b[0]));
                assert(spec_lookup(m, k) == Option::Some(h));
            } else {
                lemma_merge2_lookup(at, bt, k);
                assert(spec_lookup(m, k) == spec_lookup(mt, k));
                assert(spec_lookup(a, k) == spec_lookup(at, k));
                assert(spec_lookup(b, k) == spec_lookup(bt, k));
            }
        }
    }
}

/// Every record of the tombstone-free run comes from the input.
pub proof fn lemma_live_mem(s: Seq<RecordModel>)
    ensures
        forall|i: int| 0 <= i < spec_live(s).len() ==> exists|p: int|
            0 <= p < s.len() && s[p] == #[trigger] spec_live(s)[i],
    decreases s.len(),
{
    let v = spec_live(s);
    if s.len() == 0 {
    } else {
        let t = s.subrange(1, s.len() as int);
        lemma_live_mem(t);
        let vt = spec_live(t);
        assert forall|i: int| 0 <= i < v.len() implies exists|p: int|
            0 <= p < s.len() && s[p] == #[trigger] v[i] by {
            if s[0].deleted {
                let p = choose|p: int| 0 <= p < t.len() && t[p] == vt[i];
                assert(s[p + 1] == v[i]);
            } else {
                if i == 0 {
                    assert(s[0] == v[0]);
                } else {
                    assert(v[i] == vt[i - 1]);
                    let p = choose|p: int| 0 <= p < t.len() && t[p] == vt[i - 1];
                    assert(s[p + 1] == v[i]);
                }
            }
        }
    }
}

/// Dropping tombstones keeps the run sorted.
pub proof fn lemma_live_sorted(s: Seq<RecordModel>)
    requires
        sorted_by_key(s),
    ensures
        sorted_by_key(spec_live(s)),
    decreases s.len(),
{
    let v = spec_live(s);
    if s.len() > 0 {
        let t = s.subrange(1, s.len() as int);
        lemma_sorted_tail(s);
        lemma_live_sorted(t);
        lemma_live_mem(t);
        let vt = spec_live(t);
        if s[0].deleted {
        } else {
            assert forall|p: int, q: int| 0 <= p < q < v.len() implies lex_lt(
                v[p].key,
                v[q].key,
            ) by {
                if p == 0 {
                    assert(v[q] == vt[q - 1]);
                    let x = choose|x: int| 0 <= x < t.len() && t[x] == vt[q - 1];
                    assert(t[x] == s[x + 1]);
                    assert(lex_lt(s[0].key, s[x + 1].key));
                } else {
                    assert(v[p] == vt[p - 1] && v[q] == vt[q - 1]);
                }
            }
        }
    }
}

/// What a lookup finds once tombstones are dropped: what it found before,
/// unless that was a tombstone — then nothing, and the key cannot be
/// resurrected by anything beneath this run.
pub proof fn lemma_live_lookup(s: Seq<RecordModel>, k: Seq<u8>)
    requires
        sorted_by_key(s),
    ensures
        spec_lookup(spec_live(s), k) == match spec_lookup(s, k) {
            Option::Some(r) => if r.deleted {
                Option::None
            } else {
                Option::Some(r)
            },
            Option::None => Option::None::<RecordModel>,
        },
    decreases s.len(),
{
    let v = spec_live(s);
    if s.len() == 0 {
    } else {
        let t = s.subrange(1, s.len() as int);
        lemma_sorted_tail(s);
        lemma_live_lookup(t, k);
        let vt = spec_live(t);
        if s[0].key == k {
            assert(spec_lookup(s, k) == Option::Some(s[0]));
            if s[0].deleted {
                assert(v == vt);
                assert forall|i: int| 0 <= i < t.len() implies (#[trigger] t[i]).key != k by {
                    assert(t[i] == s[i + 1]);
                    assert(lex_lt(s[0].key, s[i + 1].key));
                    lemma_lex_lt_irrefl(k);
                }
                lemma_lookup_none(t, k);
            } else {
                assert(v[0] == s[0]);
                assert(spec_lookup(v, k) == Option::Some(s[0]));
            }
        } else {
            if s[0].deleted {
                assert(v == vt);
                assert(spec_lookup(s, k) == spec_lookup(t, k));
            } else {
                assert(v[0] == s[0]);
                assert(v.subrange(1, v.len() as int) =~= vt);
                assert(spec_lookup(v, k) == spec_lookup(vt, k));
                assert(spec_lookup(s, k) == spec_lookup(t, k));
            }
        }
    }
}

/// Compaction keeps the newest record: merging two runs that both hold a
/// key gives the record with the higher timestamp.
pub proof fn lemma_compaction_newest_wins(
    a: Seq<RecordModel>,
    b: Seq<RecordModel>,
    k: Seq<u8>,
    r1: RecordModel,
    r2: RecordModel,
)
    requires
        sorted_by_key(a),
        sorted_by_key(b),
        spec_lookup(a, k) == Option::Some(r1),
        spec_lookup(b, k) == Option::Some(r2),
        r2.timestamp > r1.timestamp,
    ensures
        spec_lookup(spec_merge2(a, b), k) == Option::Some(r2),
{
    lemma_merge2_lookup(a, b, k);
}

/// A tombstone with nothing beneath it to shadow may be dropped: once
/// tombstones are removed from a merged run, its key reads as absent.
pub proof fn lemma_compaction_drops_tombstone(s: Seq<RecordModel>, k: Seq<u8>)
    requires
        sorted_by_key(s),
        spec_lookup(s, k) matches Option::Some(r) && r.deleted,
    ensures
        spec_lookup(spec_live(s), k) is None,
{
    lemma_live_lookup(s, k);
}

/// Copy one record.
fn copy_record(r: &SSTableRecord) -> (c: SSTableRecord)
    ensures
        c@ == r@,
{
    SSTableRecord {
        key: vstd::slice::slice_to_vec(r.key.as_slice()),
        value: match &r.value {
            Option::Some(v) => Option::Some(vstd::slice::slice_to_vec(v.as_slice())),
            Option::None => Option::None,
        },
        timestamp: r.timestamp,
        deleted: r.deleted,
    }
}

/// Merge two key-sorted runs of records, `b` the newer; optionally drop
/// tombstones (when the output level has no older data beneath it).
pub fn merge_records(
    a: &Vec<SSTableRecord>,
    b: &Vec<SSTableRecord>,
    drop_tombstones: bool,
) -> (r: Vec<SSTableRecord>)
    requires
        sorted_by_key(a@.map_values(|e: SSTableRecord| e@)),
        sorted_by_key(b@.map_values(|e: SSTableRecord| e@)),
        all_wf(a@.map_values(|e: SSTableRecord| e@)),
        all_wf(b@.map_values(|e: SSTableRecord| e@)),
    ensures
        r@.map_values(|e: SSTableRecord| e@) == if drop_tombstones {
            spec_live(spec_merge2(
                a@.map_values(|e: SSTableRecord| e@),
                b@.map_values(|e: SSTableRecord| e@),
            ))
        } else {
            spec_merge2(
                a@.map_values(|e: SSTableRecord| e@),
                b@.map_values(|e: SSTableRecord| e@),
            )
        },
        sorted_by_key(r@.map_values(|e: SSTableRecord| e@)),
        all_wf(r@.map_values(|e: SSTableRecord| e@)),
{
    let ghost am = a@.map_values(|e: SSTableRecord| e@);
    let ghost bm = b@.map_values(|e: SSTableRecord| e@);
    let ghost target = spec_merge2(am, bm);
    let mut merged: Vec<SSTableRecord> = Vec::new();
    let mut i: usize = 0;
    let mut j: usize = 0;
    proof {
        assert(am.subrange(0, am.len() as int) =~= am);
        assert(bm.subrange(0, bm.len() as int) =~= bm);
    }
    while i < a.len() || j < b.len()
        invariant
            i <= a@.len(),
            j <= b@.len(),
            am == a@.map_values(|e: SSTableRecord| e@),
            bm == b@.map_values(|e: SSTableRecord| e@),
            all_wf(am),
            all_wf(bm),
            target == merged@.map_values(|e: SSTableRecord| e@) + spec_merge2(
                am.subrange(i as int, am.len() as int),
                bm.subrange(j as int, bm.len() as int),
            ),
            all_wf(merged@.map_values(|e: SSTableRecord| e@)),
        decreases a@.len() - i + b@.len() - j,
    {
        let ghost arest = am.subrange(i as int, am.len() as int);
        let ghost brest = bm.subrange(j as int, bm.len() as int);
        let ghost mmodel = merged@.map_values(|e: SSTableRecord| e@);
        if i == a.len() {
            // Drain the rest of b.
            let e = &b[j];
            proof {
                assert(e@ == bm[j as int]);
                assert(arest.len() == 0);
                assert(brest[0] == bm[j as int]);
                assert(spec_merge2(arest, brest) == brest);
                assert(brest.subrange(1, brest.len() as int) =~= bm.subrange(
                    j + 1,
                    bm.len() as int,
                ));
                assert(brest =~= seq![bm[j as int]] + bm.subrange(j + 1, bm.len() as int));
            }
            merged.push(copy_record(e));
            proof {
                assert(merged@.map_values(|e2: SSTableRecord| e2@) =~= mmodel + seq![e@]);
                assert(mmodel + brest =~= (mmodel + seq![e@]) + bm.subrange(
                    j + 1,
                    bm.len() as int,
                ));
                assert(spec_merge2(am.subrange(i as int, am.len() as int), bm.subrange(
                    j + 1,
                    bm.len() as int,
                )) == bm.subrange(j + 1, bm.len() as int));
            }
            j = j + 1;
        } else if j == b.len() {
            // Drain the rest of a.
            let e = &a[i];
            proof {
                assert(e@ == am[i as int]);
                assert(brest.len() == 0);
                assert(arest[0] == am[i as int]);
                assert(spec_merge2(arest, brest) == arest);
                assert(arest.subrange(1, arest.len() as int) =~= am.subrange(
                    i + 1,
                    am.len() as int,
                ));
                assert(arest =~= seq![am[i as int]] + am.subrange(i + 1, am.len() as int));
            }
            merged.push(copy_record(e));
            proof {
                assert(merged@.map_values(|e2: SSTableRecord| e2@) =~= mmodel + seq![e@]);
                assert(mmodel + arest =~= (mmodel + seq![e@]) + am.subrange(
                    i + 1,
                    am.len() as int,
                ));
                assert(spec_merge2(am.subrange(i + 1, am.len() as int), bm.subrange(
                    j as int,
                    bm.len() as int,
                )) == am.subrange(i + 1, am.len() as int));
            }
            i = i + 1;
        } else {
            let ea = &a[i];
            let eb = &b[j];
            proof {
                assert(ea@ == am[i as int]);
                assert(eb@ == bm[j as int]);
                assert(arest[0] == am[i as int]);
                assert(brest[0] == bm[j as int]);
                assert(arest.subrange(1, arest.len() as int) =~= am.subrange(
                    i + 1,
                    am.len() as int,
                ));
                assert(brest.subrange(1, brest.len() as int) =~= bm.subrange(
                    j + 1,
                    bm.len() as int,
                ));
            }
            match compare_keys(ea.key.as_slice(), eb.key.as_slice()) {
                KeyOrder::Less => {
                    merged.push(copy_record(ea));
                    proof {
                        assert(spec_merge2(arest, brest) == seq![arest[0]] + spec_merge2(
                            arest.subrange(1, arest.len() as int),
                            brest,
                        ));
                        assert(merged@.map_values(|e2: SSTableRecord| e2@) =~= mmodel
                            + seq![ea@]);
                        assert(mmodel + spec_merge2(arest, brest) =~= (mmodel + seq![ea@])
                            + spec_merge2(am.subrange(i + 1, am.len() as int), brest));
                    }
                    i = i + 1;
                }
                KeyOrder::Greater => {
                    merged.push(copy_record(eb));
                    proof {
                        assert(spec_merge2(arest, brest) == seq![brest[0]] + spec_merge2(
                            arest,
                            brest.subrange(1, brest.len() as int),
                        ));
                        assert(merged@.map_values(|e2: SSTableRecord| e2@) =~= mmodel
                            + seq![eb@]);
                        assert(mmodel + spec_merge2(arest, brest) =~= (mmodel + seq![eb@])
                            + spec_merge2(arest, bm.subrange(j + 1, bm.len() as int)));
                    }
                    j = j + 1;
                }
                KeyOrder::Equal => {
                    let winner = if ea.timestamp > eb.timestamp {
                        copy_record(ea)
                    } else {
                        copy_record(eb)
                    };
                    proof {
                        crate::keys::lemma_lex_lt_irrefl(arest[0].key);
                    }
                    merged.push(winner);
                    proof {
                        assert(spec_merge2(arest, brest) == seq![if arest[0].timestamp
                            > brest[0].timestamp {
                            arest[0]
                        } else {
                            brest[0]
                        }] + spec_merge2(
                            arest.subrange(1, arest.len() as int),
                            brest.subrange(1, brest.len() as int),
                        ));
                        assert(merged@.map_values(|e2: SSTableRecord| e2@) =~= mmodel + seq![
                            if arest[0].timestamp > brest[0].timestamp {
                                arest[0]
                            } else {
                                brest[0]
                            }
                        ]);
                        assert(mmodel + spec_merge2(arest, brest) =~= merged@.map_values(
                            |e2: SSTableRecord| e2@,
                        ) + spec_merge2(
                            am.subrange(i + 1, am.len() as int),
                            bm.subrange(j + 1, bm.len() as int),
                        ));
                    }
                    i = i + 1;
                    j = j + 1;
                }
            }
        }
    }
    proof {
        assert(am.subrange(i as int, am.len() as int).len() == 0);
        assert(bm.subrange(j as int, bm.len() as int).len() == 0);
        assert(spec_merge2(
            am.subrange(i as int, am.len() as int),
            bm.subrange(j as int, bm.len() as int),
        ).len() == 0);
        assert(merged@.map_values(|e: SSTableRecord| e@) =~= target);
        lemma_merge2_sorted(am, bm);
    }
    if !drop_tombstones {
        return merged;
    }
    let mut out: Vec<SSTableRecord> = Vec::new();
    let mut p: usize = 0;
    proof {
        assert(target.subrange(0, target.len() as int) =~= target);
    }
    while p < merged.len()
        invariant
            p <= merged@.len(),
            merged@.map_values(|e: SSTableRecord| e@) == target,
            all_wf(target),
            spec_live(target) == out@.map_values(|e: SSTableRecord| e@) + spec_live(
                target.subrange(p as int, target.len() as int),
            ),
            all_wf(out@.map_values(|e: SSTableRecord| e@)),
        decreases merged@.len() - p,
    {
        let e = &merged[p];
        let ghost rest = target.subrange(p as int, target.len() as int);
        let ghost omodel = out@.map_values(|e2: SSTableRecord| e2@);
        proof {
            assert(e@ == target[p as int]);
            assert(rest[0] == target[p as int]);
            assert(rest.subrange(1, rest.len() as int) =~= target.subrange(
                p + 1,
                target.len() as int,
            ));
        }
        if !e.deleted {
            out.push(copy_record(e));
            proof {
                assert(out@.map_values(|e2: SSTableRecord| e2@) =~= omodel + seq![e@]);
                assert(spec_live(rest) == seq![rest[0]] + spec_live(
                    target.subrange(p + 1, target.len() as int),
                ));
                assert(omodel + spec_live(rest) =~= (omodel + seq![e@]) + spec_live(
                    target.subrange(p + 1, target.len() as int),
                ));
            }
        }
        p = p + 1;
    }
    proof {
        assert(target.subrange(p as int, target.len() as int).len() == 0);
        assert(spec_live(target.subrange(p as int, target.len() as int)).len() == 0);
        assert(out@.map_values(|e: SSTableRecord| e@) =~= spec_live(target));
        lemma_live_sorted(target);
    }
    out
}

/// Merge two segments (the second the newer) into one fresh segment at the
/// next level, through the same write path as a flush. `None` when every
/// merged record was a dropped tombstone, so no output segment is written.
pub fn merge_segments(a: &SSTable, b: &SSTable, id: u64, drop_tombstones: bool) -> (r: Option<
    SSTable,
>)
    requires
        a.wf(),
        b.wf(),
    ensures
        ({
            let merged = if drop_tombstones {
                spec_live(spec_merge2(a@, b@))
            } else {
                spec_merge2(a@, b@)
            };
            match r {
                Option::Some(s) => s.wf() && s@ == merged && s.spec_id() == id,
                Option::None => merged.len() == 0,
            }
        }),
{
    proof {
        a.lemma_wf_records();
        b.lemma_wf_records();
    }
    let ra = a.records();
    let rb = b.records();
    let merged = merge_records(&ra, &rb, drop_tombstones);
    if merged.len() == 0 {
        Option::None
    } else {
        Option::Some(SSTable::build(id, merged))
    }
}

} // verus!
