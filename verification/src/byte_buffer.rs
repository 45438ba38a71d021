//! SWAR byte scanning.
//!
//! The hot loop walks the input in 32-byte windows. For each window it wants
//! two 32-bit masks telling where the `;` and `\n` delimiters sit, and, when a
//! record outgrows the window, the position of the next delimiter byte in an
//! arbitrarily long slice. Both services are provided here, built on the
//! SIMD-within-a-register trick: eight bytes are packed in one `u64` and a
//! handful of word-wide operations marks every byte equal to the target.

use vstd::prelude::*;

verus! {

/// Low seven bits of every byte.
pub const LOW7_MASK: u64 = 0x7F7F_7F7F_7F7F_7F7F;

/// ASCII `;`.
pub const SEMICOLON: u8 = 59;

/// ASCII `\n`.
pub const NEWLINE: u8 = 10;

/// The little-endian 64-bit word packing `s[i..i + 8]`.
pub open spec fn word_at(s: Seq<u8>, i: int) -> u64 {
    (s[i] as u64) | ((s[i + 1] as u64) << 8) | ((s[i + 2] as u64) << 16) | ((s[i + 3] as u64)
        << 24) | ((s[i + 4] as u64) << 32) | ((s[i + 5] as u64) << 40) | ((s[i + 6] as u64) << 48)
        | ((s[i + 7] as u64) << 56)
}

/// The target byte repeated through all eight lanes.
pub open spec fn repeat8(t: u8) -> u64 {
    (t as u64) | ((t as u64) << 8) | ((t as u64) << 16) | ((t as u64) << 24) | ((t as u64) << 32)
        | ((t as u64) << 40) | ((t as u64) << 48) | ((t as u64) << 56)
}

/// The zero-byte detector: byte `j` of the result has its high bit set
/// exactly when byte `j` of `x` is zero, with no false positives.
pub open spec fn zero_bytes(x: u64) -> u64 {
    !((((x & LOW7_MASK) + LOW7_MASK) as u64) | x | LOW7_MASK)
}

/// A delimiter mask that has been consumed up to `start`: bit `j` is set
/// exactly when byte `j` exists, lies in the first 32 bytes at or after
/// `start`, and equals `t`.
pub open spec fn mask_from(s: Seq<u8>, m: u32, t: u8, start: int) -> bool {
    forall|j: u32|
        j < 32 ==> ((#[trigger] ((m >> j) & 1) == 1) <==> (start <= j < s.len() && s[j as int]
            == t))
}

/// What a fresh 32-bit delimiter mask must say about window `s`: bit `j` is
/// set exactly when byte `j` exists, lies in the first 32 bytes, and equals
/// `t`.
pub open spec fn mask_ok(s: Seq<u8>, m: u32, t: u8) -> bool {
    mask_from(s, m, t, 0)
}

/// The wide-mask contract: bit `j` is set exactly when byte `j` exists,
/// lies in the first 64 bytes, and equals `t`.
pub open spec fn mask_ok64(s: Seq<u8>, m: u64, t: u8) -> bool {
    forall|j: u64|
        j < 64 ==> ((#[trigger] ((m >> j) & 1) == 1) <==> (j < s.len() && s[j as int] == t))
}

/// The delimiter-mask contract pins the mask completely: any two
/// implementations that meet it return identical masks, and every set bit
/// is an actual match within the window. The SIMD-within-a-register path
/// and any vector path are therefore interchangeable.
pub proof fn lemma_mask_unique(s: Seq<u8>, m1: u32, m2: u32, t: u8)
    requires
        mask_ok(s, m1, t),
        mask_ok(s, m2, t),
    ensures
        m1 == m2,
{
    lemma_u32_or_bit();
    let x = m1 ^ m2;
    assert forall|j: u32| j < 32 implies #[trigger] (x >> j) & 1 == 0 by {
        assert(((m1 ^ m2) >> j) & 1 == ((m1 >> j) & 1) ^ ((m2 >> j) & 1)) by (bit_vector);
        assert((m1 >> j) & 1 == (m2 >> j) & 1);
        assert(((m1 >> j) & 1) ^ ((m1 >> j) & 1) == 0) by (bit_vector);
    }
    lemma_u32_low_bits_clear(x, 31);
    assert(x == 0) by (bit_vector)
        requires
            x & (((1u32 << 31) - 1) as u32) == 0 && (x >> 31) & 1 == 0,
    ;
    assert(m1 == m2) by (bit_vector)
        requires
            m1 ^ m2 == 0,
    ;
}

/// Bit-level meaning of the SWAR probe over one packed word.
proof fn lemma_swar_probe(b0: u8, b1: u8, b2: u8, b3: u8, b4: u8, b5: u8, b6: u8, b7: u8, t: u8, w: u64, m: u64)
    requires
        w == (b0 as u64) | ((b1 as u64) << 8) | ((b2 as u64) << 16) | ((b3 as u64) << 24) | ((
        b4 as u64) << 32) | ((b5 as u64) << 40) | ((b6 as u64) << 48) | ((b7 as u64) << 56),
        m == zero_bytes(w ^ repeat8(t)),
    ensures
        ((m >> 7) & 1 == 1) <==> b0 == t,
        ((m >> 15) & 1 == 1) <==> b1 == t,
        ((m >> 23) & 1 == 1) <==> b2 == t,
        ((m >> 31) & 1 == 1) <==> b3 == t,
        ((m >> 39) & 1 == 1) <==> b4 == t,
        ((m >> 47) & 1 == 1) <==> b5 == t,
        ((m >> 55) & 1 == 1) <==> b6 == t,
        ((m >> 63) & 1 == 1) <==> b7 == t,
        (m == 0) <==> (b0 != t && b1 != t && b2 != t && b3 != t && b4 != t && b5 != t && b6 != t
            && b7 != t),
{
    let x = w ^ repeat8(t);
    assert((((m >> 7) & 1 == 1) <==> b0 == t) && (((m >> 15) & 1 == 1) <==> b1 == t) && (((m >> 23)
        & 1 == 1) <==> b2 == t) && (((m >> 31) & 1 == 1) <==> b3 == t) && (((m >> 39) & 1 == 1)
        <==> b4 == t) && (((m >> 47) & 1 == 1) <==> b5 == t) && (((m >> 55) & 1 == 1) <==> b6 == t)
        && (((m >> 63) & 1 == 1) <==> b7 == t) && ((m == 0) <==> (b0 != t && b1 != t && b2 != t
        && b3 != t && b4 != t && b5 != t && b6 != t && b7 != t))) by (bit_vector)
        requires
            w == (b0 as u64) | ((b1 as u64) << 8) | ((b2 as u64) << 16) | ((b3 as u64) << 24) | ((
            b4 as u64) << 32) | ((b5 as u64) << 40) | ((b6 as u64) << 48) | ((b7 as u64) << 56),
            x == w ^ ((t as u64) | ((t as u64) << 8) | ((t as u64) << 16) | ((t as u64) << 24) | ((
            t as u64) << 32) | ((t as u64) << 40) | ((t as u64) << 48) | ((t as u64) << 56)),
            m == !((((x & 0x7F7F_7F7F_7F7F_7F7Fu64) + 0x7F7F_7F7F_7F7F_7F7Fu64) as u64) | x
                | 0x7F7F_7F7F_7F7F_7F7Fu64),
    ;
}

/// Folding a small mask into bits `k..k + 8` of a window mask, and reading
/// bits of the zero mask.
pub proof fn lemma_u32_or_bit()
    by (bit_vector)
    ensures
        forall|m: u32, b: u32, k: u32, j: u32|
            b <= 1 && k < 32 && j < 32 ==> #[trigger] (((m | (b << k)) >> j) & 1) == (if j == k
                && b == 1 {
                1u32
            } else {
                (m >> j) & 1
            }),
        forall|m: u32, j: u32| m == 0 && j < 32 ==> #[trigger] ((m >> j) & 1) == 0u32,
        forall|m: u32, j: u32| #[trigger] ((m >> j) & 1) <= 1,
{
}

/// A mask whose bits below `k` are all clear is divisible by `1 << k`.
proof fn lemma_u32_low_bits_clear(m: u32, k: u32)
    requires
        k < 32,
        forall|j: u32| j < k ==> (m >> j) & 1 == 0,
    ensures
        m & (((1u32 << k) - 1) as u32) == 0,
    decreases k,
{
    if k == 0 {
        assert(m & (((1u32 << 0) - 1) as u32) == 0) by (bit_vector);
    } else {
        lemma_u32_low_bits_clear(m, (k - 1) as u32);
        let k1 = (k - 1) as u32;
        assert(m & (((1u32 << k) - 1) as u32) == 0) by (bit_vector)
            requires
                k < 32,
                k == k1 + 1,
                m & (((1u32 << k1) - 1) as u32) == 0,
                (m >> k1) & 1 == 0,
        ;
    }
}

/// Clearing the lowest set bit: `m & (m - 1)` drops bit `k` (the lowest set
/// bit of `m`) and keeps all others.
pub proof fn lemma_u32_clear_lowest(m: u32, k: u32)
    requires
        k < 32,
        (m >> k) & 1 == 1,
        forall|j: u32| j < k ==> (m >> j) & 1 == 0,
    ensures
        m >= 1,
        forall|j: u32|
            j < 32 ==> #[trigger] (((m & ((m - 1) as u32)) >> j) & 1) == (if j == k {
                0u32
            } else {
                (m >> j) & 1
            }),
{
    lemma_u32_low_bits_clear(m, k);
    assert(m >= 1) by (bit_vector)
        requires
            k < 32 && (m >> k) & 1 == 1,
    ;
    assert forall|j: u32| j < 32 implies #[trigger] (((m & ((m - 1) as u32)) >> j) & 1) == (if j == k {
        0u32
    } else {
        (m >> j) & 1
    }) by {
        assert((((m & ((m - 1) as u32)) >> j) & 1) == (if j == k {
            0u32
        } else {
            (m >> j) & 1
        })) by (bit_vector)
            requires
                j < 32,
                k < 32,
                (m >> k) & 1 == 1,
                m & (((1u32 << k) - 1) as u32) == 0,
        ;
    }
}

/// Pack `s[i..i + 8]` into a little-endian word.
pub(crate) fn load_word(s: &[u8], i: usize) -> (w: u64)
    requires
        i + 8 <= s@.len(),
    ensures
        w == word_at(s@, i as int),
{
    (s[i] as u64) | ((s[i + 1] as u64) << 8) | ((s[i + 2] as u64) << 16) | ((s[i + 3] as u64)
        << 24) | ((s[i + 4] as u64) << 32) | ((s[i + 5] as u64) << 40) | ((s[i + 6] as u64) << 48)
        | ((s[i + 7] as u64) << 56)
}

/// One SWAR probe of the eight bytes at `s[i..i + 8]`: the high bit of byte
/// `j` of the result says `s[i + j] == t`.
fn swar_probe(s: &[u8], i: usize, t: u8) -> (m: u64)
    requires
        i + 8 <= s@.len(),
    ensures
        ((m >> 7) & 1 == 1) <==> s@[i as int] == t,
        ((m >> 15) & 1 == 1) <==> s@[i + 1] == t,
        ((m >> 23) & 1 == 1) <==> s@[i + 2] == t,
        ((m >> 31) & 1 == 1) <==> s@[i + 3] == t,
        ((m >> 39) & 1 == 1) <==> s@[i + 4] == t,
        ((m >> 47) & 1 == 1) <==> s@[i + 5] == t,
        ((m >> 55) & 1 == 1) <==> s@[i + 6] == t,
        ((m >> 63) & 1 == 1) <==> s@[i + 7] == t,
        (m == 0) <==> (s@[i as int] != t && s@[i + 1] != t && s@[i + 2] != t && s@[i + 3] != t
            && s@[i + 4] != t && s@[i + 5] != t && s@[i + 6] != t && s@[i + 7] != t),
{
    let w = load_word(s, i);
    let r = (t as u64) | ((t as u64) << 8) | ((t as u64) << 16) | ((t as u64) << 24) | ((t as u64)
        << 32) | ((t as u64) << 40) | ((t as u64) << 48) | ((t as u64) << 56);
    let x = w ^ r;
    assert((x & LOW7_MASK) + LOW7_MASK <= 0xFEFE_FEFE_FEFE_FEFEu64) by (bit_vector);
    let m = !(((x & LOW7_MASK) + LOW7_MASK) | x | LOW7_MASK);
    proof {
        lemma_swar_probe(
            s@[i as int],
            s@[i + 1],
            s@[i + 2],
            s@[i + 3],
            s@[i + 4],
            s@[i + 5],
            s@[i + 6],
            s@[i + 7],
            t,
            w,
            m,
        );
    }
    m
}


/// Fold one SWAR probe into the 32-bit window mask: after the call, bits
/// `i..i + 8` of the mask reflect the eight bytes just probed, in the style
/// of a SIMD movemask followed by one shift and one or.
pub(crate) fn chunk_bits(s: &[u8], i: usize, t: u8, m0: u32) -> (r: u32)
    requires
        i + 8 <= s@.len(),
        i + 8 <= 32,
        forall|j: u32| j < 32 ==> ((#[trigger] ((m0 >> j) & 1) == 1) <==> (j < i && s@[j as int] == t)),
    ensures
        forall|j: u32| j < 32 ==> ((#[trigger] ((r >> j) & 1) == 1) <==> (j < i + 8 && s@[j as int] == t)),
{
    let ms = swar_probe(s, i, t);
    let c64 = ((ms >> 7) & 1) | (((ms >> 15) & 1) << 1) | (((ms >> 23) & 1) << 2) | (((ms >> 31)
        & 1) << 3) | (((ms >> 39) & 1) << 4) | (((ms >> 47) & 1) << 5) | (((ms >> 55) & 1) << 6) | ((
    (ms >> 63) & 1) << 7);
    let c = c64 as u32;
    let b = i as u32;
    let r = m0 | (c << b);
    proof {
        assert(c < 256 && ((c >> 0) & 1 == 1 <==> (ms >> 7) & 1 == 1) && ((c >> 1) & 1 == 1 <==> (
        ms >> 15) & 1 == 1) && ((c >> 2) & 1 == 1 <==> (ms >> 23) & 1 == 1) && ((c >> 3) & 1 == 1
            <==> (ms >> 31) & 1 == 1) && ((c >> 4) & 1 == 1 <==> (ms >> 39) & 1 == 1) && ((c >> 5)
            & 1 == 1 <==> (ms >> 47) & 1 == 1) && ((c >> 6) & 1 == 1 <==> (ms >> 55) & 1 == 1) && ((
        c >> 7) & 1 == 1 <==> (ms >> 63) & 1 == 1)) by (bit_vector)
            requires
                c64 == ((ms >> 7) & 1) | (((ms >> 15) & 1) << 1) | (((ms >> 23) & 1) << 2) | (((ms
                    >> 31) & 1) << 3) | (((ms >> 39) & 1) << 4) | (((ms >> 47) & 1) << 5) | (((ms
                    >> 55) & 1) << 6) | (((ms >> 63) & 1) << 7),
                c == c64 as u32,
        ;
        assert forall|j: u32| j < 32 implies ((#[trigger] ((r >> j) & 1) == 1) <==> (((m0 >> j) & 1
            == 1) || (i <= j < i + 8 && ((c >> ((j - b) as u32)) & 1 == 1)))) by {
            assert((((m0 | (c << b)) >> j) & 1 == 1) <==> (((m0 >> j) & 1 == 1) || (b <= j < b + 8
                && ((c >> ((j - b) as u32)) & 1 == 1)))) by (bit_vector)
                requires
                    b <= 24,
                    c < 256,
                    j < 32,
            ;
        }
        assert forall|j: u32| j < 32 implies ((#[trigger] ((r >> j) & 1) == 1) <==> (j < i + 8
            && s@[j as int] == t)) by {
            assert(((r >> j) & 1 == 1) <==> (((m0 >> j) & 1 == 1) || (i <= j < i + 8 && ((c >> ((j
                - b) as u32)) & 1 == 1))));
            assert(((m0 >> j) & 1 == 1) <==> (j < i && s@[j as int] == t));
            if i <= j < i + 8 {
                let d = (j - b) as u32;
                if d == 0 {
                    assert((c >> 0u32) & 1 == 1 <==> s@[i as int] == t);
                } else if d == 1 {
                    assert((c >> 1u32) & 1 == 1 <==> s@[i + 1] == t);
                } else if d == 2 {
                    assert((c >> 2u32) & 1 == 1 <==> s@[i + 2] == t);
                } else if d == 3 {
                    assert((c >> 3u32) & 1 == 1 <==> s@[i + 3] == t);
                } else if d == 4 {
                    assert((c >> 4u32) & 1 == 1 <==> s@[i + 4] == t);
                } else if d == 5 {
                    assert((c >> 5u32) & 1 == 1 <==> s@[i + 5] == t);
                } else if d == 6 {
                    assert((c >> 6u32) & 1 == 1 <==> s@[i + 6] == t);
                } else {
                    assert(d == 7);
                    assert((c >> 7u32) & 1 == 1 <==> s@[i + 7] == t);
                }
                assert((c >> d) & 1 == 1 <==> s@[j as int] == t);
            }
        }
    }
    r
}

/// Byte scanning over `[u8]`, the window and slice services of the pipeline.
pub trait ByteBuffer {
    /// The bytes being scanned.
    spec fn bytes(&self) -> Seq<u8>;

    /// The index of the first occurrence of `needle`, if any.
    fn byte_position(&self, needle: u8) -> (r: Option<usize>)
        ensures
            match r {
                Some(k) => k < self.bytes().len() && self.bytes()[k as int] == needle && forall|
                    j: int,
                |
                    0 <= j < k ==> self.bytes()[j] != needle,
                None => forall|j: int| 0 <= j < self.bytes().len() ==> self.bytes()[j] != needle,
            },
    ;

    /// Masks of `;` and `\n` positions over the first 32 bytes.
    fn find_delimiters(&self) -> (r: (u32, u32))
        ensures
            mask_ok(self.bytes(), r.0, SEMICOLON),
            mask_ok(self.bytes(), r.1, NEWLINE),
    ;

    /// The scalar fallback; must agree with `find_delimiters` bit for bit.
    fn find_delimiters_swar(&self) -> (r: (u32, u32))
        ensures
            mask_ok(self.bytes(), r.0, SEMICOLON),
            mask_ok(self.bytes(), r.1, NEWLINE),
    ;

    /// Masks of `;` and `\n` positions over the first 64 bytes, for a
    /// driver that walks the input in wide windows.
    fn find_delimiters64(&self) -> (r: (u64, u64))
        ensures
            mask_ok64(self.bytes(), r.0, SEMICOLON),
            mask_ok64(self.bytes(), r.1, NEWLINE),
    ;
}

/// Two 32-bit window masks combine into one wide mask.
proof fn lemma_mask_join(s: Seq<u8>, lo: u32, hi: u32, t: u8)
    requires
        mask_ok(s, lo, t),
        mask_ok(if s.len() > 32 {
            s.skip(32)
        } else {
            Seq::<u8>::empty()
        }, hi, t),
    ensures
        mask_ok64(s, (lo as u64) | ((hi as u64) << 32), t),
{
    let m = (lo as u64) | ((hi as u64) << 32);
    let tail = if s.len() > 32 {
        s.skip(32)
    } else {
        Seq::<u8>::empty()
    };
    assert forall|j: u64| j < 64 implies ((#[trigger] ((m >> j) & 1) == 1) <==> (j < s.len()
        && s[j as int] == t)) by {
        assert((m >> j) & 1 == (if j < 32 {
            ((lo >> (j as u32)) & 1) as u64
        } else {
            ((hi >> ((j - 32) as u32)) & 1) as u64
        })) by (bit_vector)
            requires
                j < 64,
                m == (lo as u64) | ((hi as u64) << 32),
        ;
        if j < 32 {
            assert(((lo >> (j as u32)) & 1 == 1) <==> (j < s.len() && s[j as int] == t));
        } else {
            let w: u32 = (j - 32) as u32;
            assert(((hi >> w) & 1 == 1) <==> (w < tail.len() && tail[w as int] == t));
            if s.len() > 32 && j < s.len() {
                assert(tail[j - 32] == s[j as int]);
            }
        }
    }
}

impl ByteBuffer for [u8] {
    open spec fn bytes(&self) -> Seq<u8> {
        self@
    }

    fn byte_position(&self, needle: u8) -> (r: Option<usize>) {
        let len = self.len();
        let mut i: usize = 0;
        while len - i >= 8
            invariant
                i <= len,
                len == self@.len(),
                forall|j: int| 0 <= j < i ==> self@[j] != needle,
            decreases len - i,
        {
            let m = swar_probe(self, i, needle);
            if m != 0 {
                let mut j: usize = 0;
                while j < 8
                    invariant
                        j <= 8,
                        i + 8 <= len,
                        len == self@.len(),
                        forall|l: int| 0 <= l < i + j ==> self@[l] != needle,
                        exists|l: int| i <= l < i + 8 && self@[l] == needle,
                    decreases 8 - j,
                {
                    if self[i + j] == needle {
                        return Some(i + j);
                    }
                    j += 1;
                }
                proof {
                    assert(false);
                }
            }
            i += 8;
        }
        while i < len
            invariant
                i <= len,
                len == self@.len(),
                forall|j: int| 0 <= j < i ==> self@[j] != needle,
            decreases len - i,
        {
            if self[i] == needle {
                return Some(i);
            }
            i += 1;
        }
        None
    }

    fn find_delimiters(&self) -> (r: (u32, u32)) {
        self.find_delimiters_swar()
    }

    fn find_delimiters_swar(&self) -> (r: (u32, u32)) {
        let len = self.len();
        let n = if len < 32 {
            len
        } else {
            32
        };
        let mut semicolons: u32 = 0;
        let mut newlines: u32 = 0;
        proof {
            lemma_u32_or_bit();
        }
        let mut i: usize = 0;
        while n - i >= 8
            invariant
                i <= n,
                n <= 32,
                n <= self@.len(),
                self@.len() < 32 ==> n == self@.len(),
                self@.len() >= 32 ==> n == 32,
                forall|j: u32|
                    j < 32 ==> ((#[trigger] ((semicolons >> j) & 1) == 1) <==> (j < i
                        && self@[j as int] == SEMICOLON)),
                forall|j: u32|
                    j < 32 ==> ((#[trigger] ((newlines >> j) & 1) == 1) <==> (j < i
                        && self@[j as int] == NEWLINE)),
            decreases n - i,
        {
            semicolons = chunk_bits(self, i, SEMICOLON, semicolons);
            newlines = chunk_bits(self, i, NEWLINE, newlines);
            i += 8;
        }
        while i < n
            invariant
                i <= n,
                n <= 32,
                n <= self@.len(),
                self@.len() < 32 ==> n == self@.len(),
                self@.len() >= 32 ==> n == 32,
                forall|j: u32|
                    j < 32 ==> ((#[trigger] ((semicolons >> j) & 1) == 1) <==> (j < i
                        && self@[j as int] == SEMICOLON)),
                forall|j: u32|
                    j < 32 ==> ((#[trigger] ((newlines >> j) & 1) == 1) <==> (j < i
                        && self@[j as int] == NEWLINE)),
            decreases n - i,
        {
            proof {
                lemma_u32_or_bit();
            }
            let b = i as u32;
            let is_semi: u32 = if self[i] == SEMICOLON {
                1
            } else {
                0
            };
            let is_nl: u32 = if self[i] == NEWLINE {
                1
            } else {
                0
            };
            semicolons = semicolons | (is_semi << b);
            newlines = newlines | (is_nl << b);
            i += 1;
        }
        (semicolons, newlines)
    }

    fn find_delimiters64(&self) -> (r: (u64, u64)) {
        let len = self.len();
        let lo_end = if len < 32 {
            len
        } else {
            32
        };
        let hi_end = if len < 64 {
            len
        } else {
            64
        };
        let lo = vstd::slice::slice_subrange(self, 0, lo_end);
        let (semi_lo, nl_lo) = lo.find_delimiters();
        proof {
            assert(lo.bytes() == lo@);
            assert forall|j: u32| j < 32 implies ((#[trigger] ((semi_lo >> j) & 1) == 1) <==> (j
                < self@.len() && self@[j as int] == SEMICOLON)) by {
                if j < lo_end {
                    assert(lo@[j as int] == self@[j as int]);
                }
            }
            assert forall|j: u32| j < 32 implies ((#[trigger] ((nl_lo >> j) & 1) == 1) <==> (j
                < self@.len() && self@[j as int] == NEWLINE)) by {
                if j < lo_end {
                    assert(lo@[j as int] == self@[j as int]);
                }
            }
        }
        let (semi_hi, nl_hi) = if len > 32 {
            let hi = vstd::slice::slice_subrange(self, 32, hi_end);
            let r = hi.find_delimiters();
            proof {
                assert(hi.bytes() == hi@);
                assert(hi@ =~= self@.skip(32).subrange(0, hi_end - 32));
                assert forall|j: u32| j < 32 implies ((#[trigger] ((r.0 >> j) & 1) == 1) <==> (j
                    < self@.skip(32).len() && self@.skip(32)[j as int] == SEMICOLON)) by {
                    if j < hi@.len() {
                        assert(hi@[j as int] == self@.skip(32)[j as int]);
                    } else if j < self@.skip(32).len() {
                        assert(j >= 32);
                    }
                }
                assert forall|j: u32| j < 32 implies ((#[trigger] ((r.1 >> j) & 1) == 1) <==> (j
                    < self@.skip(32).len() && self@.skip(32)[j as int] == NEWLINE)) by {
                    if j < hi@.len() {
                        assert(hi@[j as int] == self@.skip(32)[j as int]);
                    } else if j < self@.skip(32).len() {
                        assert(j >= 32);
                    }
                }
            }
            r
        } else {
            proof {
                lemma_u32_or_bit();
            }
            (0u32, 0u32)
        };
        proof {
            lemma_mask_join(self@, semi_lo, semi_hi, SEMICOLON);
            lemma_mask_join(self@, nl_lo, nl_hi, NEWLINE);
        }
        ((semi_lo as u64) | ((semi_hi as u64) << 32), (nl_lo as u64) | ((nl_hi as u64) << 32))
    }
}

} // verus!
