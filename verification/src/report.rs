//! The sorted report.
//!
//! After the stream is consumed, the occupied entries are sorted by name in
//! byte-lexicographic order and written as one line:
//! `{NameA=min/mean/max, NameB=min/mean/max, ...}`, each figure a signed
//! decimal with one fractional digit, the mean rounded half away from zero.

use crate::hash_table::Entry;
use crate::temperature::push_temp;
use crate::temperature::temp_str;
use vstd::prelude::*;
use vstd::multiset::Multiset;
use vstd::seq_lib::group_to_multiset_ensures;

verus! {

/// Byte-lexicographic order on names: shorter prefixes come first.
pub open spec fn lex_leq(a: Seq<u8>, b: Seq<u8>) -> bool
    decreases a.len(),
{
    if a.len() == 0 {
        true
    } else if b.len() == 0 {
        false
    } else if a[0] < b[0] {
        true
    } else if a[0] > b[0] {
        false
    } else {
        lex_leq(a.skip(1), b.skip(1))
    }
}

/// Any two names compare.
pub proof fn lemma_lex_total(a: Seq<u8>, b: Seq<u8>)
    ensures
        lex_leq(a, b) || lex_leq(b, a),
    decreases a.len(),
{
    if a.len() > 0 && b.len() > 0 && a[0] == b[0] {
        lemma_lex_total(a.skip(1), b.skip(1));
    }
}

/// Every name compares equal to itself.
pub proof fn lemma_lex_refl(a: Seq<u8>)
    ensures
        lex_leq(a, a),
{
    lemma_lex_total(a, a);
}

/// The order chains.
pub proof fn lemma_lex_trans(a: Seq<u8>, b: Seq<u8>, c: Seq<u8>)
    requires
        lex_leq(a, b),
        lex_leq(b, c),
    ensures
        lex_leq(a, c),
    decreases a.len(),
{
    if a.len() > 0 && b.len() > 0 && c.len() > 0 && a[0] == b[0] && b[0] == c[0] {
        lemma_lex_trans(a.skip(1), b.skip(1), c.skip(1));
    }
}

/// Compare two names in byte-lexicographic order.
pub fn lex_leq_bytes(a: &[u8], b: &[u8]) -> (r: bool)
    ensures
        r == lex_leq(a@, b@),
{
    let mut i: usize = 0;
    let alen = a.len();
    let blen = b.len();
    proof {
        assert(a@.skip(0) =~= a@);
        assert(b@.skip(0) =~= b@);
    }
    while i < alen && i < blen
        invariant
            i <= alen,
            i <= blen,
            alen == a@.len(),
            blen == b@.len(),
            lex_leq(a@, b@) == lex_leq(a@.skip(i as int), b@.skip(i as int)),
            forall|j: int| 0 <= j < i ==> a@[j] == b@[j],
        decreases alen - i,
    {
        proof {
            assert(a@.skip(i as int)[0] == a@[i as int]);
            assert(b@.skip(i as int)[0] == b@[i as int]);
            assert(a@.skip(i as int).skip(1) =~= a@.skip(i + 1));
            assert(b@.skip(i as int).skip(1) =~= b@.skip(i + 1));
        }
        if a[i] < b[i] {
            return true;
        }
        if a[i] > b[i] {
            return false;
        }
        i += 1;
    }
    proof {
        if i == alen {
            assert(a@.skip(i as int).len() == 0);
        } else {
            assert(b@.skip(i as int).len() == 0);
            assert(a@.skip(i as int).len() > 0);
        }
    }
    alen <= blen
}

/// A name-and-record list as its mathematical content.
pub open spec fn pairs_view(s: Seq<(Vec<u8>, Entry)>) -> Seq<(Seq<u8>, Entry)> {
    s.map_values(|p: (Vec<u8>, Entry)| (p.0@, p.1))
}

/// The list is sorted by name.
pub open spec fn sorted_by_name(s: Seq<(Seq<u8>, Entry)>) -> bool {
    forall|a: int, b: int| 0 <= a < b < s.len() ==> lex_leq(#[trigger] s[a].0, #[trigger] s[b].0)
}

/// Sort a name-and-record list by name, byte-lexicographically, keeping
/// exactly the same collection of pairs.
pub fn sort_entries(v: &mut Vec<(Vec<u8>, Entry)>)
    ensures
        sorted_by_name(pairs_view(final(v)@)),
        pairs_view(final(v)@).to_multiset() == pairs_view(old(v)@).to_multiset(),
{
    broadcast use group_to_multiset_ensures;

    let ghost orig = pairs_view(v@);
    let mut out: Vec<(Vec<u8>, Entry)> = Vec::new();
    proof {
        broadcast use vstd::multiset::lemma_multiset_empty_len;

        assert(pairs_view(out@) =~= Seq::<(Seq<u8>, Entry)>::empty());
        pairs_view(out@).to_multiset_ensures();
        assert(pairs_view(out@).to_multiset().len() == 0);
        assert(pairs_view(out@).to_multiset() =~= Multiset::empty());
    }
    while v.len() > 0
        invariant
            pairs_view(out@).to_multiset().add(pairs_view(v@).to_multiset())
                =~= orig.to_multiset(),
            sorted_by_name(pairs_view(out@)),
            forall|a: int, b: int|
                0 <= a < out@.len() && 0 <= b < v@.len() ==> lex_leq(
                    #[trigger] pairs_view(out@)[a].0,
                    #[trigger] pairs_view(v@)[b].0,
                ),
        decreases v@.len(),
    {
        // find the least remaining name
        let mut best: usize = 0;
        let mut j: usize = 1;
        proof {
            lemma_lex_refl(v@[0].0@);
        }
        while j < v.len()
            invariant
                best < j <= v@.len(),
                v@.len() > 0,
                forall|l: int| 0 <= l < j ==> lex_leq(v@[best as int].0@, #[trigger] v@[l].0@),
            decreases v@.len() - j,
        {
            proof {
                lemma_lex_total(v@[best as int].0@, v@[j as int].0@);
            }
            if !lex_leq_bytes(v[best].0.as_slice(), v[j].0.as_slice()) {
                let ghost old_best = best as int;
                best = j;
                proof {
                    assert forall|l: int| 0 <= l < j + 1 implies lex_leq(
                        v@[best as int].0@,
                        #[trigger] v@[l].0@,
                    ) by {
                        if l < j {
                            lemma_lex_trans(v@[best as int].0@, v@[old_best].0@, v@[l].0@);
                        } else {
                            lemma_lex_refl(v@[best as int].0@);
                        }
                    }
                }
            }
            j += 1;
        }
        let ghost pv = pairs_view(v@);
        let ghost po = pairs_view(out@);
        let x = v.remove(best);
        out.push(x);
        proof {
            assert(pairs_view(v@) =~= pv.remove(best as int));
            assert(pairs_view(out@) =~= po.push(pv[best as int]));
            pv.to_multiset_ensures();
            po.to_multiset_ensures();
            assert(pv.remove(best as int).to_multiset() =~= pv.to_multiset().remove(
                pv[best as int],
            ));
            assert(pv.to_multiset().count(pv[best as int]) > 0) by {
                assert(pv.contains(pv[best as int]));
            }
            assert(pairs_view(out@).to_multiset().add(pairs_view(v@).to_multiset())
                =~= orig.to_multiset());
            assert forall|a: int, b: int|
                0 <= a < b < pairs_view(out@).len() implies lex_leq(
                #[trigger] pairs_view(out@)[a].0,
                #[trigger] pairs_view(out@)[b].0,
            ) by {
                if b == po.len() {
                    assert(pairs_view(out@)[a] == po[a]);
                }
            }
            assert forall|a: int, b: int|
                0 <= a < out@.len() && 0 <= b < v@.len() implies lex_leq(
                #[trigger] pairs_view(out@)[a].0,
                #[trigger] pairs_view(v@)[b].0,
            ) by {
                let e = pairs_view(v@)[b];
                assert(e == if b < best {
                    pv[b]
                } else {
                    pv[b + 1]
                });
                if a < po.len() {
                    assert(pairs_view(out@)[a] == po[a]);
                    if b < best {
                        lemma_lex_trans(po[a].0, pv[best as int].0, pv[b].0);
                    } else {
                        lemma_lex_trans(po[a].0, pv[best as int].0, pv[b + 1].0);
                    }
                } else {
                    assert(pairs_view(out@)[a] == pv[best as int]);
                }
            }
        }
    }
    proof {
        broadcast use vstd::multiset::lemma_multiset_empty_len;

        assert(pairs_view(v@) =~= Seq::<(Seq<u8>, Entry)>::empty());
        pairs_view(v@).to_multiset_ensures();
        assert(pairs_view(v@).to_multiset().len() == 0);
        assert(pairs_view(v@).to_multiset() =~= Multiset::<(Seq<u8>, Entry)>::empty());
        assert(pairs_view(out@).to_multiset() =~= orig.to_multiset());
    }
    *v = out;
}

/// The mean of a record in tenths, rounded half away from zero.
pub open spec fn mean_tenths(sum: int, count: int) -> int {
    if sum >= 0 {
        (2 * sum + count) / (2 * count)
    } else {
        -((2 * (-sum) + count) / (2 * count))
    }
}

/// A record whose statistics are internally consistent, as the table
/// guarantees for every occupied slot.
pub open spec fn entry_sane(e: Entry) -> bool {
    &&& 1 <= e.count
    &&& -999 <= e.min <= e.max <= 999
    &&& e.count * e.min <= e.sum <= e.count * e.max
}

/// The mean of a sane record stays within the temperature range.
pub proof fn lemma_mean_in_range(e: Entry)
    requires
        entry_sane(e),
    ensures
        -999 <= mean_tenths(e.sum as int, e.count as int) <= 999,
{
    let s = e.sum as int;
    let c = e.count as int;
    if s >= 0 {
        assert(2 * s + c <= 1999 * c) by (nonlinear_arith)
            requires
                s <= c * e.max,
                e.max <= 999,
                c >= 1,
        ;
        assert((2 * s + c) / (2 * c) <= 999) by (nonlinear_arith)
            requires
                2 * s + c <= 1999 * c,
                c >= 1,
                s >= 0,
        ;
        assert((2 * s + c) / (2 * c) >= 0) by (nonlinear_arith)
            requires
                c >= 1,
                s >= 0,
        ;
    } else {
        assert(2 * (-s) + c <= 1999 * c) by (nonlinear_arith)
            requires
                c * e.min <= s,
                -999 <= e.min,
                c >= 1,
        ;
        assert((2 * (-s) + c) / (2 * c) <= 999) by (nonlinear_arith)
            requires
                2 * (-s) + c <= 1999 * c,
                c >= 1,
                s < 0,
        ;
        assert((2 * (-s) + c) / (2 * c) >= 0) by (nonlinear_arith)
            requires
                c >= 1,
                s < 0,
        ;
    }
}

/// Compute the rounded mean of a record.
pub fn entry_mean(e: &Entry) -> (m: i32)
    requires
        entry_sane(*e),
    ensures
        m == mean_tenths(e.sum as int, e.count as int),
        -999 <= m <= 999,
{
    proof {
        lemma_mean_in_range(*e);
    }
    let s = e.sum as i64;
    let c = e.count as i64;
    if s >= 0 {
        ((2 * s + c) / (2 * c)) as i32
    } else {
        (-((2 * (-s) + c) / (2 * c))) as i32
    }
}

/// One rendered report entry: `name=min/mean/max`.
pub open spec fn render_entry(name: Seq<u8>, e: Entry) -> Seq<u8> {
    name + seq![61u8] + temp_str(e.min as int) + seq![47u8] + temp_str(
        mean_tenths(e.sum as int, e.count as int),
    ) + seq![47u8] + temp_str(e.max as int)
}

/// The report body for the first `n` entries, comma-space separated.
pub open spec fn render_upto(s: Seq<(Seq<u8>, Entry)>, n: int) -> Seq<u8>
    decreases n,
{
    if n <= 0 {
        Seq::empty()
    } else if n == 1 {
        render_entry(s[0].0, s[0].1)
    } else {
        render_upto(s, n - 1) + seq![44u8, 32u8] + render_entry(s[n - 1].0, s[n - 1].1)
    }
}

/// The whole report: the entries wrapped in braces.
pub open spec fn spec_report(s: Seq<(Seq<u8>, Entry)>) -> Seq<u8> {
    seq![123u8] + render_upto(s, s.len() as int) + seq![125u8]
}

/// Render a report from a (sorted) name-and-record list.
pub fn render_entries(v: &Vec<(Vec<u8>, Entry)>) -> (r: Vec<u8>)
    requires
        forall|i: int| 0 <= i < v@.len() ==> entry_sane((#[trigger] v@[i]).1),
    ensures
        r@ == spec_report(pairs_view(v@)),
{
    let ghost pv = pairs_view(v@);
    let mut out: Vec<u8> = Vec::new();
    out.push(123);
    let mut i: usize = 0;
    while i < v.len()
        invariant
            i <= v@.len(),
            pv == pairs_view(v@),
            forall|j: int| 0 <= j < v@.len() ==> entry_sane((#[trigger] v@[j]).1),
            out@ == seq![123u8] + render_upto(pv, i as int),
        decreases v@.len() - i,
    {
        if i > 0 {
            out.push(44);
            out.push(32);
        }
        let name = &v[i].0;
        let mut j: usize = 0;
        let ghost mid = out@;
        while j < name.len()
            invariant
                j <= name@.len(),
                name@ == pv[i as int].0,
                i < v@.len(),
                pv == pairs_view(v@),
                out@ == mid + name@.take(j as int),
            decreases name@.len() - j,
        {
            out.push(name[j]);
            proof {
                assert(out@ =~= mid + name@.take(j + 1));
            }
            j += 1;
        }
        proof {
            assert(name@.take(name@.len() as int) =~= name@);
        }
        let e = v[i].1;
        out.push(61);
        push_temp(&mut out, e.min as i32);
        out.push(47);
        let m = entry_mean(&e);
        push_temp(&mut out, m);
        out.push(47);
        push_temp(&mut out, e.max as i32);
        proof {
            assert(e == pv[i as int].1);
            assert(out@ =~= seq![123u8] + render_upto(pv, i + 1));
        }
        i += 1;
    }
    out.push(125);
    proof {
        assert(out@ =~= spec_report(pv));
    }
    out
}

} // verus!
