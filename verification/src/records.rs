//! The shape of the measurement input.
//!
//! A region is a run of records, each `name ";" temperature "\n"`: the name
//! is one to a hundred bytes free of `;` and `\n`, the temperature matches
//! `-?\d{1,2}\.\d`. These spec functions say what a well-formed region is
//! and which `(name, scaled value)` readings it carries; the drivers promise
//! to fold exactly those readings into the table.

use crate::byte_buffer::NEWLINE;
use crate::byte_buffer::SEMICOLON;
use crate::hash_table::spec_hash;
use crate::hash_table::spec_prefix;
use crate::hash_table::TableError;
use crate::hash_table::TableView;
use crate::temperature::temp_val;
use crate::temperature::wf_temp;
use vstd::prelude::*;

verus! {

/// The index of the first occurrence of `b` in `s`, or `-1`.
pub open spec fn find_first(s: Seq<u8>, b: u8) -> int
    decreases s.len(),
{
    if s.len() == 0 {
        -1
    } else if s[0] == b {
        0
    } else {
        let r = find_first(s.skip(1), b);
        if r < 0 {
            -1
        } else {
            r + 1
        }
    }
}

/// What `find_first` means: the returned index holds `b` and nothing
/// before it does, and `-1` means `b` does not occur at all.
pub proof fn lemma_find_first(s: Seq<u8>, b: u8)
    ensures
        find_first(s, b) >= 0 ==> {
            &&& find_first(s, b) < s.len()
            &&& s[find_first(s, b)] == b
            &&& forall|j: int| 0 <= j < find_first(s, b) ==> s[j] != b
        },
        find_first(s, b) == -1 ==> forall|j: int| 0 <= j < s.len() ==> s[j] != b,
        find_first(s, b) >= -1,
    decreases s.len(),
{
    if s.len() > 0 && s[0] != b {
        lemma_find_first(s.skip(1), b);
        let r = find_first(s.skip(1), b);
        if r >= 0 {
            assert forall|j: int| 0 <= j < r + 1 implies s[j] != b by {
                if j > 0 {
                    assert(s.skip(1)[j - 1] != b);
                }
            }
        } else {
            assert forall|j: int| 0 <= j < s.len() implies s[j] != b by {
                if j > 0 {
                    assert(s.skip(1)[j - 1] != b);
                }
            }
        }
    }
}

/// An occurrence that nothing precedes is what `find_first` returns.
pub proof fn lemma_find_first_is(s: Seq<u8>, b: u8, k: int)
    requires
        0 <= k < s.len(),
        s[k] == b,
        forall|j: int| 0 <= j < k ==> s[j] != b,
    ensures
        find_first(s, b) == k,
{
    lemma_find_first(s, b);
    let f = find_first(s, b);
    if f == -1 {
        assert(s[k] != b);
    } else if f < k {
        assert(s[f] != b);
    } else if f > k {
        assert(s[k] != b);
    }
}

/// A station name: one to a hundred bytes, no delimiter bytes.
pub open spec fn wf_name(s: Seq<u8>) -> bool {
    &&& 1 <= s.len() <= 100
    &&& forall|j: int| 0 <= j < s.len() ==> s[j] != SEMICOLON && s[j] != NEWLINE
}

/// The first semicolon of a region suffix, marking the end of its leading
/// name.
pub open spec fn semi_of(s: Seq<u8>) -> int {
    find_first(s, SEMICOLON)
}

/// The first newline of a region suffix, terminating its leading record.
pub open spec fn nl_of(s: Seq<u8>) -> int {
    find_first(s, NEWLINE)
}

/// The region suffix starts with one complete record.
pub open spec fn wf_head(s: Seq<u8>) -> bool {
    &&& 1 <= semi_of(s) <= 100
    &&& semi_of(s) < nl_of(s)
    &&& nl_of(s) < s.len()
    &&& forall|j: int| 0 <= j < semi_of(s) ==> s[j] != NEWLINE
    &&& wf_temp(s.subrange(semi_of(s) + 1, nl_of(s)))
}

/// The leading record of a region suffix, as a `(name, scaled value)`
/// reading.
pub open spec fn head_rec(s: Seq<u8>) -> (Seq<u8>, int) {
    (s.subrange(0, semi_of(s)), temp_val(s.subrange(semi_of(s) + 1, nl_of(s))))
}

/// A well-formed region: empty, or one complete record followed by a
/// well-formed region.
pub open spec fn wf_records(s: Seq<u8>) -> bool
    decreases s.len(),
{
    if s.len() == 0 {
        true
    } else {
        wf_head(s) && wf_records(s.skip(nl_of(s) + 1))
    }
}

/// The readings a well-formed region carries, in input order.
pub open spec fn records(s: Seq<u8>) -> Seq<(Seq<u8>, int)>
    decreases s.len(),
{
    if s.len() == 0 {
        Seq::empty()
    } else if wf_head(s) {
        seq![head_rec(s)] + records(s.skip(nl_of(s) + 1))
    } else {
        Seq::empty()
    }
}

/// The name of a well-formed leading record is a well-formed name, and its
/// temperature slice is in the grammar.
pub proof fn lemma_head_name_ok(s: Seq<u8>)
    requires
        wf_head(s),
    ensures
        wf_name(head_rec(s).0),
        -999 <= head_rec(s).1 <= 999,
{
    lemma_find_first(s, SEMICOLON);
    lemma_find_first(s, NEWLINE);
    let name = head_rec(s).0;
    assert forall|j: int| 0 <= j < name.len() implies name[j] != SEMICOLON && name[j]
        != NEWLINE by {
        assert(name[j] == s[j]);
    }
    crate::temperature::lemma_temp_val_in_range(s.subrange(semi_of(s) + 1, nl_of(s)));
}

/// Temperature bytes are digits, a dot, or a minus: never a delimiter.
pub proof fn lemma_temp_bytes(s: Seq<u8>)
    requires
        wf_temp(s),
    ensures
        forall|j: int| 0 <= j < s.len() ==> s[j] != SEMICOLON && s[j] != NEWLINE,
{
}

/// Skipping twice is skipping the sum.
pub proof fn lemma_skip_skip(s: Seq<u8>, a: int, b: int)
    requires
        0 <= a,
        0 <= b,
        a + b <= s.len(),
    ensures
        s.skip(a).skip(b) =~= s.skip(a + b),
{
}

/// The index of the last occurrence of `b` in `s`, or `-1`.
pub open spec fn find_last(s: Seq<u8>, b: u8) -> int
    decreases s.len(),
{
    if s.len() == 0 {
        -1
    } else if s[s.len() - 1] == b {
        s.len() - 1
    } else {
        find_last(s.drop_last(), b)
    }
}

/// `find_last` stays within the sequence and lands on its byte.
pub proof fn lemma_find_last(s: Seq<u8>, b: u8)
    ensures
        -1 <= find_last(s, b) < s.len(),
        find_last(s, b) >= 0 ==> s[find_last(s, b)] == b,
    decreases s.len(),
{
    if s.len() > 0 && s[s.len() - 1] != b {
        lemma_find_last(s.drop_last(), b);
        if find_last(s, b) >= 0 {
            assert(s.drop_last()[find_last(s, b)] == b);
        }
    }
}

/// An occurrence that nothing follows is what `find_last` returns.
pub proof fn lemma_find_last_is(s: Seq<u8>, b: u8, k: int)
    requires
        0 <= k < s.len(),
        s[k] == b,
        forall|j: int| k < j < s.len() ==> s[j] != b,
    ensures
        find_last(s, b) == k,
    decreases s.len(),
{
    if s[s.len() - 1] != b {
        lemma_find_last_is(s.drop_last(), b, k);
    }
}

/// When `b` does not occur, `find_last` reports `-1`.
pub proof fn lemma_find_last_none(s: Seq<u8>, b: u8)
    requires
        forall|j: int| 0 <= j < s.len() ==> s[j] != b,
    ensures
        find_last(s, b) == -1,
    decreases s.len(),
{
    if s.len() > 0 {
        lemma_find_last_none(s.drop_last(), b);
    }
}

/// One table transition: fold one reading into the table, or report why it
/// cannot be. A zero hash would alias the empty-slot sentinel; a full probe
/// window has nowhere to put a new key; a saturated counter cannot take
/// another sample.
pub open spec fn table_step(v: TableView, name: Seq<u8>, temp: int) -> Result<
    TableView,
    TableError,
> {
    let h = spec_hash(name);
    let p = spec_prefix(name);
    if h == 0 {
        Err(TableError::ZeroHash)
    } else {
        let slot = v.lookup_result(h, p);
        if v.occupied(slot) && v.hashes[slot] == h && v.prefixes[slot] == p {
            if v.entries[slot].count < 65535 {
                Ok(v.apply_update(slot, name, temp))
            } else {
                Err(TableError::CountOverflow)
            }
        } else if !v.occupied(slot) {
            Ok(v.apply_update(slot, name, temp))
        } else {
            Err(TableError::ProbeOverflow)
        }
    }
}

/// The table after a run of readings, or the first error met.
pub open spec fn table_fold(v: TableView, recs: Seq<(Seq<u8>, int)>) -> Result<
    TableView,
    TableError,
>
    decreases recs.len(),
{
    if recs.len() == 0 {
        Ok(v)
    } else {
        match table_step(v, recs[0].0, recs[0].1) {
            Ok(v2) => table_fold(v2, recs.skip(1)),
            Err(e) => Err(e),
        }
    }
}

} // verus!
