//! Parsing and formatting of temperatures.
//!
//! A temperature on the wire is an ASCII decimal matching `-?\d{1,2}\.\d`,
//! between 3 and 5 bytes long. Inside the pipeline it is a signed integer
//! scaled by ten, so `-12.3` becomes `-123`; every legal reading lies in
//! `[-999, 999]` and fits in an `i16`.

use vstd::prelude::*;

verus! {

/// ASCII codes the grammar speaks of.
pub open spec fn ascii_minus() -> u8 {
    45u8
}

pub open spec fn ascii_dot() -> u8 {
    46u8
}

pub open spec fn ascii_zero() -> u8 {
    48u8
}

pub open spec fn is_ascii_digit(b: u8) -> bool {
    48 <= b <= 57
}

/// The digits of an unsigned temperature body: `d.d` or `dd.d`.
pub open spec fn wf_temp_body(s: Seq<u8>) -> bool {
    ||| (s.len() == 3 && is_ascii_digit(s[0]) && s[1] == ascii_dot() && is_ascii_digit(s[2]))
    ||| (s.len() == 4 && is_ascii_digit(s[0]) && is_ascii_digit(s[1]) && s[2] == ascii_dot()
        && is_ascii_digit(s[3]))
}

/// A well-formed temperature slice: `-?\d{1,2}\.\d`, 3 to 5 bytes.
pub open spec fn wf_temp(s: Seq<u8>) -> bool {
    if s.len() > 0 && s[0] == ascii_minus() {
        wf_temp_body(s.skip(1))
    } else {
        wf_temp_body(s)
    }
}

/// Value of an unsigned temperature body, scaled by ten.
pub open spec fn temp_body_val(s: Seq<u8>) -> int {
    if s.len() == 3 {
        10 * (s[0] - ascii_zero()) + (s[2] - ascii_zero())
    } else {
        100 * (s[0] - ascii_zero()) + 10 * (s[1] - ascii_zero()) + (s[3] - ascii_zero())
    }
}

/// Value of a temperature slice, scaled by ten: `-12.3` gives `-123`.
pub open spec fn temp_val(s: Seq<u8>) -> int {
    if s.len() > 0 && s[0] == ascii_minus() {
        -temp_body_val(s.skip(1))
    } else {
        temp_body_val(s)
    }
}

/// Every well-formed temperature lies in `[-999, 999]`.
pub proof fn lemma_temp_val_in_range(s: Seq<u8>)
    requires
        wf_temp(s),
    ensures
        -999 <= temp_val(s) <= 999,
{
}

/// Decode a well-formed temperature slice to its value scaled by ten.
///
/// A branching decoder: a branchless bit-twiddling decoder would read past
/// the end of the slice, which a verified function may not do, and any
/// decoder agreeing with `temp_val` on the grammar is legal.
pub fn parse_temp(bytes: &[u8]) -> (t: i16)
    requires
        wf_temp(bytes@),
    ensures
        t == temp_val(bytes@),
        -999 <= t <= 999,
{
    let len = bytes.len();
    let (neg, lo) = if bytes[0] == 45 {
        (true, 1usize)
    } else {
        (false, 0usize)
    };
    proof {
        if neg {
            assert(bytes@.skip(1) =~= bytes@.subrange(1, len as int));
        }
    }
    let body_len = len - lo;
    let v: i16 = if body_len == 3 {
        10 * ((bytes[lo] - 48) as i16) + ((bytes[lo + 2] - 48) as i16)
    } else {
        100 * ((bytes[lo] - 48) as i16) + 10 * ((bytes[lo + 1] - 48) as i16) + ((bytes[lo
            + 3] - 48) as i16)
    };
    if neg {
        -v
    } else {
        v
    }
}

/// The canonical rendering of a scaled temperature: optional minus, one or
/// two integral digits without a spurious leading zero, a dot, and the
/// tenths digit.
pub open spec fn temp_str(v: int) -> Seq<u8> {
    let a = if v < 0 {
        -v
    } else {
        v
    };
    let q = a / 10;
    let r = a % 10;
    (if v < 0 {
        seq![ascii_minus()]
    } else {
        Seq::<u8>::empty()
    }) + (if q >= 10 {
        seq![(48 + q / 10) as u8, (48 + q % 10) as u8]
    } else {
        seq![(48 + q) as u8]
    }) + seq![ascii_dot(), (48 + r) as u8]
}

/// Append the rendering of a scaled temperature to an output buffer.
pub fn push_temp(out: &mut Vec<u8>, v: i32)
    requires
        -999 <= v <= 999,
    ensures
        final(out)@ == old(out)@ + temp_str(v as int),
{
    if v < 0 {
        out.push(45);
    }
    let a = if v < 0 {
        (-v) as u32
    } else {
        v as u32
    };
    let q = a / 10;
    let r = a % 10;
    if q >= 10 {
        out.push(48 + (q / 10) as u8);
        out.push(48 + (q % 10) as u8);
    } else {
        out.push(48 + q as u8);
    }
    out.push(46);
    out.push(48 + r as u8);
    proof {
        assert(out@ =~= old(out)@ + temp_str(v as int));
    }
}

/// Round-trip law: parsing a canonically written temperature and writing
/// the value back yields the original bytes. Canonical means no leading
/// zero pads a two-digit integral part and a minus sign never decorates a
/// zero value; the grammar admits such strings, but no rendering produces
/// them.
pub proof fn lemma_parse_format_round_trip(s: Seq<u8>)
    requires
        wf_temp(s),
        s[0] == ascii_minus() ==> temp_val(s) != 0,
        s[0] == ascii_minus() && s.len() == 5 ==> s[1] != ascii_zero(),
        s[0] != ascii_minus() && s.len() == 4 ==> s[0] != ascii_zero(),
    ensures
        temp_str(temp_val(s)) == s,
{
    if s[0] == ascii_minus() {
        let b = s.skip(1);
        assert(wf_temp_body(b));
        let v = temp_val(s);
        assert(v == -temp_body_val(b));
        if b.len() == 3 {
            assert(temp_str(v) =~= s);
        } else {
            assert(b[0] != 48);
            assert(temp_str(v) =~= s);
        }
    } else {
        let v = temp_val(s);
        if s.len() == 3 {
            assert(temp_str(v) =~= s);
        } else {
            assert(s[0] != 48);
            assert(temp_str(v) =~= s);
        }
    }
}

/// Check that a slice is a well-formed unsigned temperature body.
fn is_temp_body(s: &[u8]) -> (b: bool)
    ensures
        b == wf_temp_body(s@),
{
    let len = s.len();
    if len == 3 {
        48 <= s[0] && s[0] <= 57 && s[1] == 46 && 48 <= s[2] && s[2] <= 57
    } else if len == 4 {
        48 <= s[0] && s[0] <= 57 && 48 <= s[1] && s[1] <= 57 && s[2] == 46 && 48 <= s[3] && s[3]
            <= 57
    } else {
        false
    }
}

/// Check that a slice is a well-formed temperature.
pub fn is_temp(s: &[u8]) -> (b: bool)
    ensures
        b == wf_temp(s@),
{
    let len = s.len();
    if len == 0 {
        return false;
    }
    if s[0] == 45 {
        let body = vstd::slice::slice_subrange(s, 1, len);
        proof {
            assert(body@ =~= s@.skip(1));
        }
        is_temp_body(body)
    } else {
        is_temp_body(s)
    }
}

} // verus!
