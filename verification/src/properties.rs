//! The laws the pipeline obeys, stated once over the spec-level model.
//!
//! Chief among them: where the input is split into regions or read-buffer
//! blocks makes no difference to the fold (so the output is independent of
//! buffer size and partitioning), and a successful fold leaves in each
//! occupied slot exactly the reductions of the readings that share its key.

use crate::byte_buffer::NEWLINE;
use crate::byte_buffer::SEMICOLON;
use crate::hash_table::lemma_lookup_finds;
use crate::hash_table::spec_hash;
use crate::hash_table::spec_prefix;
use crate::hash_table::TableError;
use crate::hash_table::TableView;
use crate::records::head_rec;
use crate::records::lemma_find_first;
use crate::records::lemma_find_first_is;
use crate::records::lemma_head_name_ok;
use crate::records::nl_of;
use crate::records::records;
use crate::records::semi_of;
use crate::records::table_fold;
use crate::records::table_step;
use crate::records::wf_head;
use crate::records::wf_name;
use crate::records::wf_records;
use vstd::prelude::*;

verus! {

/// A reading the table can digest: a well-formed name and an in-range
/// scaled temperature.
pub open spec fn wf_reading(r: (Seq<u8>, int)) -> bool {
    &&& wf_name(r.0)
    &&& -999 <= r.1 <= 999
}

/// Every reading of a run is digestible.
pub open spec fn wf_readings(recs: Seq<(Seq<u8>, int)>) -> bool {
    forall|i: int| 0 <= i < recs.len() ==> wf_reading(#[trigger] recs[i])
}

/// The readings of well-formed input are digestible.
pub proof fn lemma_records_wf(s: Seq<u8>)
    requires
        wf_records(s),
    ensures
        wf_readings(records(s)),
    decreases s.len(),
{
    if s.len() > 0 {
        lemma_head_name_ok(s);
        lemma_records_wf(s.skip(nl_of(s) + 1));
        let rest = records(s.skip(nl_of(s) + 1));
        assert forall|i: int| 0 <= i < records(s).len() implies wf_reading(
            #[trigger] records(s)[i],
        ) by {
            if i > 0 {
                assert(records(s)[i] == rest[i - 1]);
            }
        }
    }
}

/// Concatenating two well-formed regions (each a whole number of records)
/// gives a well-formed region carrying the two runs of readings in order:
/// cutting the input at a record boundary loses and reorders nothing.
pub proof fn lemma_records_concat(s1: Seq<u8>, s2: Seq<u8>)
    requires
        wf_records(s1),
        wf_records(s2),
    ensures
        wf_records(s1 + s2),
        records(s1 + s2) == records(s1) + records(s2),
    decreases s1.len(),
{
    if s1.len() == 0 {
        assert(s1 + s2 =~= s2);
        assert(records(s1) + records(s2) =~= records(s2));
    } else {
        let s = s1 + s2;
        lemma_find_first(s1, SEMICOLON);
        lemma_find_first(s1, NEWLINE);
        assert(s[semi_of(s1)] == SEMICOLON);
        assert forall|j: int| 0 <= j < semi_of(s1) implies s[j] != SEMICOLON by {
            assert(s[j] == s1[j]);
        }
        lemma_find_first_is(s, SEMICOLON, semi_of(s1));
        assert(s[nl_of(s1)] == NEWLINE);
        assert forall|j: int| 0 <= j < nl_of(s1) implies s[j] != NEWLINE by {
            assert(s[j] == s1[j]);
        }
        lemma_find_first_is(s, NEWLINE, nl_of(s1));
        assert(s.subrange(semi_of(s1) + 1, nl_of(s1)) =~= s1.subrange(
            semi_of(s1) + 1,
            nl_of(s1),
        ));
        assert(s.subrange(0, semi_of(s1)) =~= s1.subrange(0, semi_of(s1)));
        assert(wf_head(s));
        assert(head_rec(s) == head_rec(s1));
        lemma_records_concat(s1.skip(nl_of(s1) + 1), s2);
        assert(s.skip(nl_of(s1) + 1) =~= s1.skip(nl_of(s1) + 1) + s2);
        assert(records(s) == seq![head_rec(s1)] + (records(s1.skip(nl_of(s1) + 1)) + records(s2)));
        assert(records(s) =~= records(s1) + records(s2));
    }
}

/// Folding a concatenated run is folding the first run and then, if it
/// succeeded, the second: block boundaries do not change the result.
pub proof fn lemma_fold_append(t: TableView, r1: Seq<(Seq<u8>, int)>, r2: Seq<(Seq<u8>, int)>)
    ensures
        table_fold(t, r1 + r2) == match table_fold(t, r1) {
            Ok(t1) => table_fold(t1, r2),
            Err(e) => Err(e),
        },
    decreases r1.len(),
{
    if r1.len() == 0 {
        assert(r1 + r2 =~= r2);
    } else {
        assert((r1 + r2)[0] == r1[0]);
        match table_step(t, r1[0].0, r1[0].1) {
            Ok(t2) => {
                lemma_fold_append(t2, r1.skip(1), r2);
                assert((r1 + r2).skip(1) =~= r1.skip(1) + r2);
            },
            Err(e) => {},
        }
    }
}

/// Processing one region and then another is processing their
/// concatenation: the read-buffer driver's block size, and the splitting of
/// the input into regions at newline boundaries, cannot change the table.
pub proof fn lemma_split_independent(t: TableView, s1: Seq<u8>, s2: Seq<u8>)
    requires
        wf_records(s1),
        wf_records(s2),
    ensures
        table_fold(t, records(s1 + s2)) == match table_fold(t, records(s1)) {
            Ok(t1) => table_fold(t1, records(s2)),
            Err(e) => Err(e),
        },
{
    lemma_records_concat(s1, s2);
    lemma_fold_append(t, records(s1), records(s2));
}

/// The key a name aggregates under: its hash and prefix pair.
pub open spec fn key_of(name: Seq<u8>) -> (u64, u64) {
    (spec_hash(name), spec_prefix(name))
}

/// How many readings of a run carry key `k`.
pub open spec fn key_count(recs: Seq<(Seq<u8>, int)>, k: (u64, u64)) -> nat
    decreases recs.len(),
{
    if recs.len() == 0 {
        0
    } else {
        key_count(recs.drop_last(), k) + if key_of(recs.last().0) == k {
            1nat
        } else {
            0nat
        }
    }
}

/// The sum of the readings of a run that carry key `k`.
pub open spec fn key_sum(recs: Seq<(Seq<u8>, int)>, k: (u64, u64)) -> int
    decreases recs.len(),
{
    if recs.len() == 0 {
        0
    } else {
        key_sum(recs.drop_last(), k) + if key_of(recs.last().0) == k {
            recs.last().1
        } else {
            0
        }
    }
}

/// The least reading of a run that carries key `k`; the sentinel lies
/// above every legal reading.
pub open spec fn key_min(recs: Seq<(Seq<u8>, int)>, k: (u64, u64)) -> int
    decreases recs.len(),
{
    if recs.len() == 0 {
        1000
    } else {
        let m = key_min(recs.drop_last(), k);
        if key_of(recs.last().0) == k && recs.last().1 < m {
            recs.last().1
        } else {
            m
        }
    }
}

/// The greatest reading of a run that carries key `k`; the sentinel lies
/// below every legal reading.
pub open spec fn key_max(recs: Seq<(Seq<u8>, int)>, k: (u64, u64)) -> int
    decreases recs.len(),
{
    if recs.len() == 0 {
        -1000
    } else {
        let m = key_max(recs.drop_last(), k);
        if key_of(recs.last().0) == k && recs.last().1 > m {
            recs.last().1
        } else {
            m
        }
    }
}

/// The name of the first reading of a run that carries key `k`: the name
/// an aggregation pins for that key.
pub open spec fn key_first_name(recs: Seq<(Seq<u8>, int)>, k: (u64, u64)) -> Seq<u8>
    decreases recs.len(),
{
    if recs.len() == 0 {
        Seq::empty()
    } else if key_count(recs.drop_last(), k) > 0 {
        key_first_name(recs.drop_last(), k)
    } else if key_of(recs.last().0) == k {
        recs.last().0
    } else {
        Seq::empty()
    }
}

/// Some occupied slot of the table stores key `k`.
pub open spec fn has_key(t: TableView, k: (u64, u64)) -> bool {
    exists|i: int|
        0 <= i < t.cap() && #[trigger] t.occupied(i) && t.hashes[i] == k.0 && t.prefixes[i] == k.1
}

/// The table is exactly the aggregation of a run of readings: every
/// occupied slot holds the reductions of the readings sharing its key and
/// the name of the first of them, and every key of the run is stored.
pub open spec fn aggregates(t: TableView, recs: Seq<(Seq<u8>, int)>) -> bool {
    &&& forall|i: int|
        0 <= i < t.cap() && #[trigger] t.occupied(i) ==> {
            let k = (t.hashes[i], t.prefixes[i]);
            &&& t.names[i] == key_first_name(recs, k)
            &&& t.entries[i].count == key_count(recs, k)
            &&& t.entries[i].sum == key_sum(recs, k)
            &&& t.entries[i].min == key_min(recs, k)
            &&& t.entries[i].max == key_max(recs, k)
        }
    &&& forall|k: (u64, u64)| key_count(recs, k) > 0 ==> has_key(t, k)
}

/// Reductions only change at their own key when one reading is appended.
proof fn lemma_key_push(recs: Seq<(Seq<u8>, int)>, name: Seq<u8>, temp: int, k: (u64, u64))
    ensures
        key_of(name) == k ==> {
            &&& key_count(recs.push((name, temp)), k) == key_count(recs, k) + 1
            &&& key_sum(recs.push((name, temp)), k) == key_sum(recs, k) + temp
            &&& key_min(recs.push((name, temp)), k) == if temp < key_min(recs, k) {
                temp
            } else {
                key_min(recs, k)
            }
            &&& key_max(recs.push((name, temp)), k) == if temp > key_max(recs, k) {
                temp
            } else {
                key_max(recs, k)
            }
            &&& key_first_name(recs.push((name, temp)), k) == if key_count(recs, k) > 0 {
                key_first_name(recs, k)
            } else {
                name
            }
        },
        key_of(name) != k ==> {
            &&& key_count(recs.push((name, temp)), k) == key_count(recs, k)
            &&& key_sum(recs.push((name, temp)), k) == key_sum(recs, k)
            &&& key_min(recs.push((name, temp)), k) == key_min(recs, k)
            &&& key_max(recs.push((name, temp)), k) == key_max(recs, k)
            &&& key_first_name(recs.push((name, temp)), k) == key_first_name(recs, k)
        },
{
    let p = recs.push((name, temp));
    assert(p.drop_last() =~= recs);
    assert(p.last() == (name, temp));
}

/// A key no reading carries reduces to the neutral values.
proof fn lemma_key_absent(recs: Seq<(Seq<u8>, int)>, k: (u64, u64))
    requires
        key_count(recs, k) == 0,
    ensures
        key_sum(recs, k) == 0,
        key_min(recs, k) == 1000,
        key_max(recs, k) == -1000,
        key_first_name(recs, k) == Seq::<u8>::empty(),
    decreases recs.len(),
{
    if recs.len() > 0 {
        lemma_key_absent(recs.drop_last(), k);
    }
}

/// One successful step extends the aggregation by one reading.
proof fn lemma_step_aggregates(
    t: TableView,
    recs: Seq<(Seq<u8>, int)>,
    name: Seq<u8>,
    temp: int,
    t2: TableView,
)
    requires
        t.wf(),
        aggregates(t, recs),
        wf_reading((name, temp)),
        table_step(t, name, temp) == Ok::<_, TableError>(t2),
    ensures
        t2.wf(),
        aggregates(t2, recs.push((name, temp))),
{
    let h = spec_hash(name);
    let pfx = spec_prefix(name);
    let k = key_of(name);
    let slot = t.lookup_result(h, pfx);
    let p = recs.push((name, temp));
    crate::hash_table::lemma_lookup_result_range(t, h, pfx);
    if t.occupied(slot) && t.hashes[slot] == h && t.prefixes[slot] == pfx {
        crate::hash_table::lemma_update_merge_wf(t, slot, name, temp);
    } else {
        crate::hash_table::lemma_update_insert_wf(t, slot, name, temp);
        // the key is new: were it counted before, its slot would be
        // occupied and the lookup would have landed there
        if key_count(recs, k) > 0 {
            assert(has_key(t, k));
            let j = choose|i: int|
                0 <= i < t.cap() && #[trigger] t.occupied(i) && t.hashes[i] == k.0 && t.prefixes[i]
                    == k.1;
            lemma_lookup_finds(t, h, pfx, j);
            assert(false);
        }
    }
    let e = t.entries[slot];
    if t.occupied(slot) {
        assert(t.slot_ok(slot));
        assert(-999 * 65536 <= e.sum + temp <= 999 * 65536) by (nonlinear_arith)
            requires
                e.count * e.min <= e.sum <= e.count * e.max,
                -999 <= e.min <= e.max <= 999,
                0 <= e.count <= 65535,
                -999 <= temp <= 999,
        ;
    } else {
        assert(t.slot_ok(slot));
        if key_count(recs, k) > 0 {
            assert(false);
        }
        lemma_key_absent(recs, k);
    }
    assert forall|i: int| 0 <= i < t2.cap() && #[trigger] t2.occupied(i) implies {
        let ki = (t2.hashes[i], t2.prefixes[i]);
        &&& t2.names[i] == key_first_name(p, ki)
        &&& t2.entries[i].count == key_count(p, ki)
        &&& t2.entries[i].sum == key_sum(p, ki)
        &&& t2.entries[i].min == key_min(p, ki)
        &&& t2.entries[i].max == key_max(p, ki)
    } by {
        let ki = (t2.hashes[i], t2.prefixes[i]);
        lemma_key_push(recs, name, temp, ki);
        if i == slot {
            assert(t2.hashes[slot] == h && t2.prefixes[slot] == pfx);
            assert(ki == k);
        } else {
            assert(t.occupied(i));
            assert(t.slot_ok(i));
            assert(t2.hashes[i] == t.hashes[i] && t2.prefixes[i] == t.prefixes[i]);
            assert(t2.entries[i] == t.entries[i] && t2.names[i] == t.names[i]);
            assert(ki != k) by {
                if ki == k {
                    if t.occupied(slot) && t.hashes[slot] == h && t.prefixes[slot] == pfx {
                        assert(t.hashes[i] == t.hashes[slot] && t.prefixes[i]
                            == t.prefixes[slot]);
                        assert(false);
                    } else {
                        lemma_lookup_finds(t, h, pfx, i);
                        assert(false);
                    }
                }
            }
        }
    }
    assert forall|kx: (u64, u64)| key_count(p, kx) > 0 implies has_key(t2, kx) by {
        lemma_key_push(recs, name, temp, kx);
        if kx == k {
            assert(t2.occupied(slot) && t2.hashes[slot] == k.0 && t2.prefixes[slot] == k.1);
        } else {
            assert(key_count(recs, kx) > 0);
            assert(has_key(t, kx));
            let j = choose|i: int|
                0 <= i < t.cap() && #[trigger] t.occupied(i) && t.hashes[i] == kx.0
                    && t.prefixes[i] == kx.1;
            assert(t2.occupied(j) && t2.hashes[j] == kx.0 && t2.prefixes[j] == kx.1);
        }
    }
}

/// The aggregation law: a fold of digestible readings into an empty table
/// that succeeds leaves, in every occupied slot, exactly the count, sum,
/// minimum and maximum of the readings sharing the slot's key, under the
/// name of the first such reading; and it stores every key that occurs.
pub proof fn lemma_fold_aggregates(t0: TableView, recs: Seq<(Seq<u8>, int)>, t: TableView)
    requires
        t0.wf(),
        forall|i: int| 0 <= i < t0.cap() ==> !#[trigger] t0.occupied(i),
        wf_readings(recs),
        table_fold(t0, recs) == Ok::<_, TableError>(t),
    ensures
        t.wf(),
        aggregates(t, recs),
    decreases recs.len(),
{
    assert forall|k: (u64, u64)| key_count(Seq::<(Seq<u8>, int)>::empty(), k) > 0 implies has_key(
        t0,
        k,
    ) by {}
    if recs.len() == 0 {
        assert(t == t0);
        assert(aggregates(t, recs));
    } else {
        let pr = recs.drop_last();
        let last = recs.last();
        assert(recs =~= pr + seq![last]);
        lemma_fold_append(t0, pr, seq![last]);
        match table_fold(t0, pr) {
            Ok(tm) => {
                assert(wf_readings(pr)) by {
                    assert forall|i: int| 0 <= i < pr.len() implies wf_reading(
                        #[trigger] pr[i],
                    ) by {
                        assert(pr[i] == recs[i]);
                    }
                }
                lemma_fold_aggregates(t0, pr, tm);
                assert(table_fold(tm, seq![last]) == Ok::<_, TableError>(t));
                assert(seq![last][0] == last);
                assert(seq![last].skip(1) =~= Seq::<(Seq<u8>, int)>::empty());
                let stepped = table_step(tm, last.0, last.1);
                if stepped is Ok {
                    assert(table_fold(tm, seq![last]) == table_fold(
                        stepped->Ok_0,
                        seq![last].skip(1),
                    ));
                    assert(table_fold(stepped->Ok_0, seq![last].skip(1)) == Ok::<_, TableError>(
                        stepped->Ok_0,
                    ));
                    assert(stepped->Ok_0 == t);
                } else {
                    assert(table_fold(tm, seq![last]) == stepped);
                    assert(false);
                }
                assert(wf_reading(last)) by {
                    assert(recs[recs.len() - 1] == last);
                }
                lemma_step_aggregates(tm, pr, last.0, last.1, t);
                assert(pr.push(last) =~= recs);
            },
            Err(e) => {
                assert(false);
            },
        }
    }
}

/// The aggregation law at the input level: a region successfully folded
/// into a fresh table leaves exactly the per-key reductions of its
/// readings.
pub proof fn lemma_region_aggregates(t0: TableView, s: Seq<u8>, t: TableView)
    requires
        t0.wf(),
        forall|i: int| 0 <= i < t0.cap() ==> !#[trigger] t0.occupied(i),
        wf_records(s),
        table_fold(t0, records(s)) == Ok::<_, TableError>(t),
    ensures
        t.wf(),
        aggregates(t, records(s)),
{
    lemma_records_wf(s);
    lemma_fold_aggregates(t0, records(s), t);
}

} // verus!
