//! The streaming drivers: walk a region of input in 32-byte windows, cut
//! out each record, and fold its reading into the table.
//!
//! A region is well-formed input (`records::wf_records`); the drivers
//! promise that on success the table is exactly the fold of the region's
//! readings, and that any failure is the fold's own first error.

use crate::byte_buffer::lemma_u32_clear_lowest;
use crate::byte_buffer::lemma_u32_or_bit;
use crate::byte_buffer::mask_from;
use crate::byte_buffer::ByteBuffer;
use crate::byte_buffer::NEWLINE;
use crate::byte_buffer::SEMICOLON;
use crate::hash_table::Table;
use crate::hash_table::TableError;
use crate::hash_table::TableView;
use crate::records::find_last;
use crate::records::head_rec;
use crate::records::lemma_find_first;
use crate::records::lemma_find_first_is;
use crate::records::lemma_find_last;
use crate::records::lemma_find_last_is;
use crate::records::lemma_find_last_none;
use crate::records::lemma_head_name_ok;
use crate::records::lemma_skip_skip;
use crate::records::lemma_temp_bytes;
use crate::records::nl_of;
use crate::records::records;
use crate::records::semi_of;
use crate::records::table_fold;
use crate::records::table_step;
use crate::records::wf_head;
use crate::records::wf_name;
use crate::records::wf_records;
use crate::temperature::is_temp;
use crate::temperature::parse_temp;
use vstd::prelude::*;
use vstd::slice::slice_subrange;
use vstd::std_specs::bits::axiom_u32_trailing_zeros;

verus! {

/// Fold one reading into the table: hash the name, prefetch and probe its
/// window, and merge or insert; report the reading the table cannot take.
pub fn process_record(tbl: &mut Table, name: &[u8], temp: i16) -> (r: Result<(), TableError>)
    requires
        old(tbl)@.wf(),
        wf_name(name@),
        -999 <= temp <= 999,
    ensures
        final(tbl)@.wf(),
        match r {
            Ok(()) => table_step(old(tbl)@, name@, temp as int) == Ok::<_, TableError>(
                final(tbl)@,
            ),
            Err(e) => table_step(old(tbl)@, name@, temp as int) == Err::<TableView, _>(e) && final(tbl)@ == old(tbl)@,
        },
{
    let (hash, prefix) = Table::hash(name);
    if hash == 0 {
        return Err(TableError::ZeroHash);
    }
    tbl.prefetch(hash);
    let slot = tbl.lookup(hash, prefix);
    proof {
        assert(tbl@.slot_ok(slot as int));
    }
    let stored = tbl.slot_hash(slot);
    if stored == 0 {
        tbl.update(slot, hash, prefix, name, temp);
        Ok(())
    } else if stored == hash && tbl.slot_prefix(slot) == prefix {
        if tbl.slot_entry(slot).count < 65535 {
            tbl.update(slot, hash, prefix, name, temp);
            Ok(())
        } else {
            Err(TableError::CountOverflow)
        }
    } else {
        Err(TableError::ProbeOverflow)
    }
}

/// The slow path: a record too long for the 32-byte window. Scan forward
/// for its delimiters one byte at a time, fold its reading in, and return
/// the cursor just past its newline.
pub fn process_long_line(buf: &[u8], tbl: &mut Table, start: usize, end: usize) -> (r: Result<
    usize,
    TableError,
>)
    requires
        old(tbl)@.wf(),
        start < buf@.len(),
        end == buf@.len(),
        wf_head(buf@.skip(start as int)),
    ensures
        final(tbl)@.wf(),
        ({
            let s = buf@.skip(start as int);
            let rec = head_rec(s);
            match r {
                Ok(c) => table_step(old(tbl)@, rec.0, rec.1) == Ok::<_, TableError>(final(tbl)@)
                    && c == start + nl_of(s) + 1 && start < c <= buf@.len(),
                Err(e) => table_step(old(tbl)@, rec.0, rec.1) == Err::<TableView, _>(e) && final(tbl)@ == old(tbl)@,
            }
        }),
{
    let ghost s = buf@.skip(start as int);
    proof {
        lemma_find_first(s, SEMICOLON);
        lemma_find_first(s, NEWLINE);
        lemma_temp_bytes(s.subrange(semi_of(s) + 1, nl_of(s)));
        lemma_head_name_ok(s);
    }
    let tail = slice_subrange(buf, start, end);
    let semi_pos = match tail.byte_position(SEMICOLON) {
        Some(k) => k,
        None => {
            proof {
                assert(tail@ =~= s);
                assert(tail.bytes()[semi_of(s)] == SEMICOLON);
                assert(false);
            }
            return Err(TableError::ZeroHash);
        },
    };
    proof {
        assert(tail@ =~= s);
        assert(tail.bytes() == tail@);
        assert(semi_pos == semi_of(s)) by {
            assert forall|j: int| 0 <= j < semi_pos implies s[j] != SEMICOLON by {
                assert(tail.bytes()[j] != SEMICOLON);
            }
            lemma_find_first_is(s, SEMICOLON, semi_pos as int);
        }
    }
    let after = slice_subrange(buf, start + semi_pos + 1, end);
    let nl_rel = match after.byte_position(NEWLINE) {
        Some(k) => k,
        None => {
            proof {
                assert(after@ =~= s.subrange(semi_of(s) + 1, s.len() as int));
                assert(after.bytes()[nl_of(s) - semi_of(s) - 1] == NEWLINE);
                assert(false);
            }
            return Err(TableError::ZeroHash);
        },
    };
    proof {
        assert(after@ =~= s.subrange(semi_of(s) + 1, s.len() as int));
        assert(after.bytes() == after@);
        assert(nl_rel == nl_of(s) - semi_of(s) - 1) by {
            assert forall|j: int| 0 <= j < nl_rel implies #[trigger] s[semi_of(s) + 1 + j]
                != NEWLINE by {
                assert(after.bytes()[j] != NEWLINE);
            }
            assert(after.bytes()[nl_rel as int] == NEWLINE);
            assert(s[semi_of(s) + 1 + nl_rel] == NEWLINE);
            assert forall|j: int| 0 <= j < semi_of(s) + 1 + nl_rel implies s[j] != NEWLINE by {
                if j < semi_of(s) {
                } else if j == semi_of(s) {
                    assert(s[j] == SEMICOLON);
                } else {
                    assert(s[semi_of(s) + 1 + (j - semi_of(s) - 1)] != NEWLINE);
                }
            }
            lemma_find_first_is(s, NEWLINE, semi_of(s) + 1 + nl_rel);
        }
    }
    let name = slice_subrange(buf, start, start + semi_pos);
    let temp_slice = slice_subrange(buf, start + semi_pos + 1, start + semi_pos + 1 + nl_rel);
    proof {
        assert(name@ =~= s.subrange(0, semi_of(s)));
        assert(temp_slice@ =~= s.subrange(semi_of(s) + 1, nl_of(s)));
    }
    let temp = parse_temp(temp_slice);
    match process_record(tbl, name, temp) {
        Ok(()) => Ok(start + semi_pos + 1 + nl_rel + 1),
        Err(e) => Err(e),
    }
}

/// The fast path: one record wholly inside the current 32-byte window,
/// located by the lowest set bit of each delimiter mask. Folds its reading
/// in and returns the window cursor just past its newline.
#[verifier::rlimit(100)]
pub fn process_line(window: &[u8], tbl: &mut Table, start: usize, semi: u32, nl: u32) -> (r:
    Result<usize, TableError>)
    requires
        old(tbl)@.wf(),
        window@.len() <= 32,
        start < window@.len(),
        mask_from(window@, semi, SEMICOLON, start as int),
        mask_from(window@, nl, NEWLINE, start as int),
        nl != 0,
        wf_head(window@.skip(start as int)),
    ensures
        final(tbl)@.wf(),
        ({
            let s = window@.skip(start as int);
            let rec = head_rec(s);
            match r {
                Ok(c) => table_step(old(tbl)@, rec.0, rec.1) == Ok::<_, TableError>(final(tbl)@)
                    && c == start + nl_of(s) + 1 && start < c <= window@.len(),
                Err(e) => table_step(old(tbl)@, rec.0, rec.1) == Err::<TableView, _>(e) && final(tbl)@ == old(tbl)@,
            }
        }),
{
    let ghost s = window@.skip(start as int);
    proof {
        lemma_find_first(s, SEMICOLON);
        lemma_find_first(s, NEWLINE);
        lemma_temp_bytes(s.subrange(semi_of(s) + 1, nl_of(s)));
        lemma_head_name_ok(s);
        lemma_u32_or_bit();
        axiom_u32_trailing_zeros(semi);
        axiom_u32_trailing_zeros(nl);
        // the head's semicolon sets a bit, so the mask cannot be zero
        assert(s[semi_of(s)] == SEMICOLON);
        assert(window@[start + semi_of(s)] == SEMICOLON);
        assert((semi >> ((start + semi_of(s)) as u32)) & 1 == 1);
        assert(semi != 0);
    }
    let semi_pos = semi.trailing_zeros() as usize;
    let nl_pos = nl.trailing_zeros() as usize;
    proof {
        let tzs = semi_pos as u32;
        let tzn = nl_pos as u32;
        // the lowest newline bit is the head record's newline
        assert((nl >> tzn) & 1 == 1);
        assert(start <= nl_pos < window@.len());
        assert(window@[nl_pos as int] == NEWLINE);
        assert forall|j: int| 0 <= j < nl_pos - start implies s[j] != NEWLINE by {
            let w: u32 = (start + j) as u32;
            assert((nl >> w) & 1 == 0);
            assert(s[j] == window@[start + j]);
        }
        lemma_find_first_is(s, NEWLINE, nl_pos - start);
        // the lowest semicolon bit is the head record's semicolon
        assert((semi >> tzs) & 1 == 1);
        assert(start <= semi_pos < window@.len());
        assert(window@[semi_pos as int] == SEMICOLON);
        assert forall|j: int| 0 <= j < semi_pos - start implies s[j] != SEMICOLON by {
            let w: u32 = (start + j) as u32;
            assert((semi >> w) & 1 == 0);
            assert(s[j] == window@[start + j]);
        }
        lemma_find_first_is(s, SEMICOLON, semi_pos - start);
        assert(semi_pos - start == semi_of(s));
        assert(nl_pos - start == nl_of(s));
    }
    let name = slice_subrange(window, start, semi_pos);
    let temp_slice = slice_subrange(window, semi_pos + 1, nl_pos);
    proof {
        assert(name@ =~= s.subrange(0, semi_of(s)));
        assert(temp_slice@ =~= s.subrange(semi_of(s) + 1, nl_of(s)));
    }
    let temp = parse_temp(temp_slice);
    match process_record(tbl, name, temp) {
        Ok(()) => Ok(nl_pos + 1),
        Err(e) => Err(e),
    }
}

/// Drain a region from `cursor` to its end: scan 32-byte windows for
/// delimiters, fold every record in the window into the table, and drop to
/// the byte-at-a-time path whenever a record outgrows the window. On
/// success the table is exactly the fold of the region's readings; on
/// failure the fold's own first error is returned and the table keeps the
/// readings before it.
#[verifier::rlimit(100)]
pub fn cleanup_region(tbl: &mut Table, region: &[u8], cursor: usize) -> (r: Result<
    (),
    TableError,
>)
    requires
        old(tbl)@.wf(),
        cursor <= region@.len(),
        wf_records(region@.skip(cursor as int)),
    ensures
        final(tbl)@.wf(),
        match r {
            Ok(()) => table_fold(old(tbl)@, records(region@.skip(cursor as int))) == Ok::<
                _,
                TableError,
            >(final(tbl)@),
            Err(e) => table_fold(old(tbl)@, records(region@.skip(cursor as int))) == Err::<
                TableView,
                _,
            >(e),
        },
{
    let ghost t0 = tbl@;
    let ghost full = records(region@.skip(cursor as int));
    let mut cur = cursor;
    let len = region.len();
    while cur < len
        invariant
            tbl@.wf(),
            cur <= len,
            len == region@.len(),
            wf_records(region@.skip(cur as int)),
            t0 == old(tbl)@,
            full == records(region@.skip(cursor as int)),
            table_fold(tbl@, records(region@.skip(cur as int))) == table_fold(t0, full),
        decreases len - cur,
    {
        let rem = len - cur;
        let wlen = if rem < 32 {
            rem
        } else {
            32
        };
        let window = slice_subrange(region, cur, cur + wlen);
        let (semi0, nl0) = window.find_delimiters();
        let ghost s_r = region@.skip(cur as int);
        proof {
            assert(window@ =~= region@.subrange(cur as int, cur + wlen));
            assert(window.bytes() == window@);
            assert(wf_head(s_r));
        }
        if nl0 == 0 {
            proof {
                lemma_find_first(s_r, NEWLINE);
            }
            let ghost t_pre = tbl@;
            match process_long_line(region, tbl, cur, len) {
                Ok(c) => {
                    proof {
                        lemma_fold_head_step_ok(t_pre, tbl@, region@, cur as int, c as int);
                    }
                    cur = c;
                },
                Err(e) => {
                    proof {
                        lemma_fold_head_step_err(t_pre, region@, cur as int, e);
                    }
                    return Err(e);
                },
            }
        } else {
            let mut line_start: usize = 0;
            let mut semi = semi0;
            let mut nl = nl0;
            while nl != 0
                invariant
                    tbl@.wf(),
                    len == region@.len(),
                    cur < len,
                    wlen <= 32,
                    cur + wlen <= len,
                    wlen == if len - cur < 32 {
                        len - cur
                    } else {
                        32
                    },
                    window@ =~= region@.subrange(cur as int, cur + wlen),
                    window@.len() == wlen,
                    line_start <= wlen,
                    wf_records(region@.skip(cur + line_start)),
                    mask_from(window@, semi, SEMICOLON, line_start as int),
                    mask_from(window@, nl, NEWLINE, line_start as int),
                    t0 == old(tbl)@,
                    full == records(region@.skip(cursor as int)),
                    table_fold(tbl@, records(region@.skip(cur + line_start))) == table_fold(
                        t0,
                        full,
                    ),
                    nl != 0 || line_start > 0,
                decreases wlen - line_start,
            {
                let ghost s_r2 = region@.skip(cur + line_start);
                let ghost s_w = window@.skip(line_start as int);
                proof {
                    axiom_u32_trailing_zeros(nl);
                    let tzn = u32_tz(nl) as int;
                    assert((nl >> u32_tz(nl)) & 1 == 1);
                    assert(line_start <= tzn < wlen);
                    assert(cur + line_start < len);
                    assert(wf_head(s_r2));
                    lemma_find_first(s_r2, SEMICOLON);
                    lemma_find_first(s_r2, NEWLINE);
                    // the head record's newline is inside the window
                    assert(window@[tzn] == NEWLINE);
                    assert forall|j: int| 0 <= j < tzn - line_start implies s_r2[j]
                        != NEWLINE by {
                        let w: u32 = (line_start + j) as u32;
                        assert((nl >> w) & 1 == 0);
                        assert(s_r2[j] == window@[line_start + j]);
                    }
                    assert(s_r2[tzn - line_start] == NEWLINE);
                    lemma_find_first_is(s_r2, NEWLINE, tzn - line_start);
                    assert(nl_of(s_r2) == tzn - line_start);
                    // so the head of the region suffix is the head of the
                    // window suffix
                    lemma_head_in_prefix(s_r2, s_w);
                }
                let ghost t_pre = tbl@;
                match process_line(window, tbl, line_start, semi, nl) {
                    Ok(c) => {
                        proof {
                            lemma_fold_head_step_ok(
                                t_pre,
                                tbl@,
                                region@,
                                cur + line_start,
                                cur + c,
                            );
                            lemma_pop_masks(window@, semi, nl, line_start as int, c as int, s_w);
                        }
                        semi = semi & (semi - 1);
                        nl = nl & (nl - 1);
                        line_start = c;
                    },
                    Err(e) => {
                        proof {
                            lemma_fold_head_step_err(t_pre, region@, cur + line_start, e);
                        }
                        return Err(e);
                    },
                }
            }
            cur = cur + line_start;
        }
    }
    proof {
        assert(region@.skip(cur as int).len() == 0);
    }
    Ok(())
}

/// Shorthand for the trailing-zero count of a mask.
pub open spec fn u32_tz(m: u32) -> u32 {
    vstd::std_specs::bits::u32_trailing_zeros(m)
}

/// Folding the head record of a well-formed suffix: on success the fold of
/// the suffix from the old table equals the fold of the rest from the new.
proof fn lemma_fold_head_step_ok(
    t_before: TableView,
    t_after: TableView,
    region: Seq<u8>,
    a: int,
    c: int,
)
    requires
        0 <= a < region.len(),
        wf_records(region.skip(a)),
        table_step(t_before, head_rec(region.skip(a)).0, head_rec(region.skip(a)).1) == Ok::<
            _,
            TableError,
        >(t_after),
        c == a + nl_of(region.skip(a)) + 1,
    ensures
        a < c <= region.len(),
        wf_records(region.skip(c)),
        table_fold(t_before, records(region.skip(a))) == table_fold(t_after, records(region.skip(c))),
{
    let s_a = region.skip(a);
    assert(wf_head(s_a));
    lemma_skip_skip(region, a, nl_of(s_a) + 1);
    assert(s_a.skip(nl_of(s_a) + 1) =~= region.skip(c));
    assert(records(s_a) == seq![head_rec(s_a)] + records(region.skip(c)));
    assert(records(s_a)[0] == head_rec(s_a));
    assert(records(s_a).skip(1) =~= records(region.skip(c)));
}

/// Folding the head record of a well-formed suffix: the step's error is
/// the fold's error.
proof fn lemma_fold_head_step_err(t_before: TableView, region: Seq<u8>, a: int, e: TableError)
    requires
        0 <= a < region.len(),
        wf_records(region.skip(a)),
        table_step(t_before, head_rec(region.skip(a)).0, head_rec(region.skip(a)).1) == Err::<
            TableView,
            _,
        >(e),
    ensures
        table_fold(t_before, records(region.skip(a))) == Err::<TableView, TableError>(e),
{
    let s_a = region.skip(a);
    assert(wf_head(s_a));
    assert(records(s_a)[0] == head_rec(s_a));
}

/// A head record that ends inside a prefix is the prefix's own head
/// record.
proof fn lemma_head_in_prefix(s: Seq<u8>, t: Seq<u8>)
    requires
        wf_head(s),
        t.len() <= s.len(),
        nl_of(s) < t.len(),
        forall|j: int| 0 <= j < t.len() ==> t[j] == s[j],
    ensures
        wf_head(t),
        semi_of(t) == semi_of(s),
        nl_of(t) == nl_of(s),
        head_rec(t) == head_rec(s),
{
    lemma_find_first(s, SEMICOLON);
    lemma_find_first(s, NEWLINE);
    assert(t[semi_of(s)] == SEMICOLON);
    assert forall|j: int| 0 <= j < semi_of(s) implies t[j] != SEMICOLON by {
        assert(s[j] != SEMICOLON);
    }
    lemma_find_first_is(t, SEMICOLON, semi_of(s));
    assert(t[nl_of(s)] == NEWLINE);
    assert forall|j: int| 0 <= j < nl_of(s) implies t[j] != NEWLINE by {
        assert(s[j] != NEWLINE);
    }
    lemma_find_first_is(t, NEWLINE, nl_of(s));
    assert(t.subrange(semi_of(s) + 1, nl_of(s)) =~= s.subrange(semi_of(s) + 1, nl_of(s)));
    assert(t.subrange(0, semi_of(s)) =~= s.subrange(0, semi_of(s)));
}

/// After the head record of the window suffix is consumed, clearing the
/// lowest bit of each mask leaves exactly the delimiters of the remaining
/// lines.
#[verifier::rlimit(100)]
proof fn lemma_pop_masks(w: Seq<u8>, semi: u32, nl: u32, start: int, c: int, s_w: Seq<u8>)
    requires
        w.len() <= 32,
        0 <= start < w.len(),
        s_w == w.skip(start),
        wf_head(s_w),
        mask_from(w, semi, SEMICOLON, start),
        mask_from(w, nl, NEWLINE, start),
        c == start + nl_of(s_w) + 1,
    ensures
        semi >= 1,
        nl >= 1,
        mask_from(w, semi & ((semi - 1) as u32), SEMICOLON, c),
        mask_from(w, nl & ((nl - 1) as u32), NEWLINE, c),
{
    lemma_u32_or_bit();
    lemma_find_first(s_w, SEMICOLON);
    lemma_find_first(s_w, NEWLINE);
    lemma_temp_bytes(s_w.subrange(semi_of(s_w) + 1, nl_of(s_w)));
    let sp = start + semi_of(s_w);
    let np = start + nl_of(s_w);
    assert(w[sp] == SEMICOLON);
    assert(w[np] == NEWLINE);
    assert((semi >> (sp as u32)) & 1 == 1);
    assert((nl >> (np as u32)) & 1 == 1);
    assert forall|j: u32| j < sp implies (semi >> j) & 1 == 0 by {
        if start <= j {
            assert(w[j as int] == s_w[j - start]);
            assert(s_w[j - start] != SEMICOLON);
        }
    }
    assert forall|j: u32| j < np implies (nl >> j) & 1 == 0 by {
        if start <= j {
            assert(w[j as int] == s_w[j - start]);
            assert(s_w[j - start] != NEWLINE);
        }
    }
    lemma_u32_clear_lowest(semi, sp as u32);
    lemma_u32_clear_lowest(nl, np as u32);
    let semi2 = semi & ((semi - 1) as u32);
    let nl2 = nl & ((nl - 1) as u32);
    assert forall|j: u32| j < 32 implies ((#[trigger] ((semi2 >> j) & 1) == 1) <==> (c <= j
        < w.len() && w[j as int] == SEMICOLON)) by {
        if j == sp {
            assert((semi2 >> j) & 1 == 0);
        } else {
            assert((semi2 >> j) & 1 == (semi >> j) & 1);
            if sp < j < c {
                // between the semicolon and the newline lies the
                // temperature slice, free of semicolons
                assert(w[j as int] == s_w[j - start]);
                if j < np {
                    assert(s_w.subrange(semi_of(s_w) + 1, nl_of(s_w))[j - start - semi_of(s_w)
                        - 1] == s_w[j - start]);
                    assert(s_w[j - start] != SEMICOLON);
                } else {
                    assert(s_w[j - start] == NEWLINE);
                }
            }
        }
    }
    assert forall|j: u32| j < 32 implies ((#[trigger] ((nl2 >> j) & 1) == 1) <==> (c <= j
        < w.len() && w[j as int] == NEWLINE)) by {
        if j == np {
            assert((nl2 >> j) & 1 == 0);
        } else {
            assert((nl2 >> j) & 1 == (nl >> j) & 1);
        }
    }
}

/// The index of the last newline in a filled buffer, scanning backwards.
pub fn last_newline(buf: &[u8]) -> (r: Option<usize>)
    ensures
        r == if find_last(buf@, NEWLINE) >= 0 {
            Some(find_last(buf@, NEWLINE) as usize)
        } else {
            Option::<usize>::None
        },
{
    let mut i = buf.len();
    while i > 0
        invariant
            i <= buf@.len(),
            forall|j: int| i <= j < buf@.len() ==> buf@[j] != NEWLINE,
        decreases i,
    {
        i -= 1;
        if buf[i] == NEWLINE {
            proof {
                lemma_find_last_is(buf@, NEWLINE, i as int);
            }
            return Some(i);
        }
    }
    proof {
        lemma_find_last_none(buf@, NEWLINE);
    }
    None
}

/// Consume a filled read buffer: process everything up to and including
/// its last newline and report how many bytes were consumed; the caller
/// keeps the tail as the residue of the next read. The consumed prefix
/// must be well-formed input.
pub fn process_buffer(tbl: &mut Table, buf: &[u8]) -> (r: Result<usize, TableError>)
    requires
        old(tbl)@.wf(),
        wf_records(buf@.take(find_last(buf@, NEWLINE) + 1)),
    ensures
        final(tbl)@.wf(),
        ({
            let consumed = find_last(buf@, NEWLINE) + 1;
            match r {
                Ok(c) => c == consumed && table_fold(old(tbl)@, records(buf@.take(consumed)))
                    == Ok::<_, TableError>(final(tbl)@),
                Err(e) => table_fold(old(tbl)@, records(buf@.take(consumed))) == Err::<
                    TableView,
                    _,
                >(e),
            }
        }),
{
    proof {
        lemma_find_last(buf@, NEWLINE);
    }
    let blen = buf.len();
    match last_newline(buf) {
        Some(k) => {
            proof {
                assert(find_last(buf@, NEWLINE) >= 0);
                assert(k == find_last(buf@, NEWLINE));
                assert(k < blen);
            }
            let end = k + 1;
            let effective = slice_subrange(buf, 0, end);
            proof {
                assert(effective@ =~= buf@.take(end as int));
                assert(effective@.skip(0) =~= effective@);
            }
            match cleanup_region(tbl, effective, 0) {
                Ok(()) => Ok(end),
                Err(e) => Err(e),
            }
        },
        None => {
            proof {
                assert(buf@.take(0).len() == 0);
            }
            Ok(0)
        },
    }
}

/// Check that a region is well-formed input: a whole number of records,
/// each a one-to-hundred-byte name, a semicolon, an in-grammar temperature
/// and a newline. The drivers demand such input; a caller that cannot
/// promise it checks first.
pub fn check_records(region: &[u8]) -> (b: bool)
    ensures
        b == wf_records(region@),
{
    let len = region.len();
    let mut cursor: usize = 0;
    proof {
        assert(region@.skip(0) =~= region@);
    }
    while cursor < len
        invariant
            cursor <= len,
            len == region@.len(),
            wf_records(region@) == wf_records(region@.skip(cursor as int)),
        decreases len - cursor,
    {
        let ghost s = region@.skip(cursor as int);
        let tail = slice_subrange(region, cursor, len);
        proof {
            assert(tail@ =~= s);
            assert(tail.bytes() == tail@);
            lemma_find_first(s, SEMICOLON);
            lemma_find_first(s, NEWLINE);
        }
        let semi_pos = match tail.byte_position(SEMICOLON) {
            Some(k) => k,
            None => {
                proof {
                    if semi_of(s) >= 0 {
                        assert(tail.bytes()[semi_of(s)] == SEMICOLON);
                    }
                }
                return false;
            },
        };
        proof {
            assert forall|j: int| 0 <= j < semi_pos implies s[j] != SEMICOLON by {
                assert(tail.bytes()[j] != SEMICOLON);
            }
            lemma_find_first_is(s, SEMICOLON, semi_pos as int);
        }
        if semi_pos == 0 || semi_pos > 100 {
            return false;
        }
        let nl_pos = match tail.byte_position(NEWLINE) {
            Some(k) => k,
            None => {
                proof {
                    if nl_of(s) >= 0 {
                        assert(tail.bytes()[nl_of(s)] == NEWLINE);
                    }
                }
                return false;
            },
        };
        proof {
            assert forall|j: int| 0 <= j < nl_pos implies s[j] != NEWLINE by {
                assert(tail.bytes()[j] != NEWLINE);
            }
            lemma_find_first_is(s, NEWLINE, nl_pos as int);
        }
        if nl_pos < semi_pos {
            return false;
        }
        let temp_slice = slice_subrange(region, cursor + semi_pos + 1, cursor + nl_pos);
        proof {
            assert(temp_slice@ =~= s.subrange(semi_of(s) + 1, nl_of(s)));
        }
        if !is_temp(temp_slice) {
            return false;
        }
        proof {
            assert(wf_head(s));
            lemma_skip_skip(region@, cursor as int, nl_of(s) + 1);
            assert(s.skip(nl_of(s) + 1) =~= region@.skip(cursor + nl_pos + 1));
        }
        cursor = cursor + nl_pos + 1;
    }
    proof {
        assert(region@.skip(cursor as int).len() == 0);
    }
    true
}

} // verus!
