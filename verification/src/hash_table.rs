//! The open-addressed aggregation table.
//!
//! A fixed-capacity map from station-name identity to running statistics.
//! Capacity is a power of two; a slot is addressed by the low bits of a
//! 64-bit hash, and a probe examines at most five consecutive slots. The
//! `hash`/`prefix` pair is treated as the key: `hash == 0` marks an empty
//! slot, so a name whose hash comes out zero cannot be stored, and the
//! driver reports it instead of corrupting the table.

use crate::byte_buffer::load_word;
use crate::byte_buffer::word_at;
use vstd::prelude::*;

verus! {

/// The 64-bit mixing constant, the inverse golden ratio scaled to 2^64.
pub const MAGIC_CONST: u64 = 0x9E3779B97F4A7C15;

/// A name byte, or zero past the end of the name.
pub open spec fn padded_byte(s: Seq<u8>, i: int) -> u8 {
    if 0 <= i < s.len() {
        s[i]
    } else {
        0
    }
}

/// The first eight bytes of a name packed little-endian, zero-padded when
/// the name is shorter.
pub open spec fn spec_prefix(s: Seq<u8>) -> u64 {
    (padded_byte(s, 0) as u64) | ((padded_byte(s, 1) as u64) << 8) | ((padded_byte(s, 2) as u64)
        << 16) | ((padded_byte(s, 3) as u64) << 24) | ((padded_byte(s, 4) as u64) << 32) | ((
    padded_byte(s, 5) as u64) << 40) | ((padded_byte(s, 6) as u64) << 48) | ((padded_byte(
        s,
        7,
    ) as u64) << 56)
}

/// The last eight bytes of a name, aligned to its end, or zero when the
/// name has no bytes beyond the prefix.
pub open spec fn spec_suffix(s: Seq<u8>) -> u64 {
    if s.len() > 8 {
        word_at(s, s.len() - 8)
    } else {
        0
    }
}

/// XOR of the interior eight-byte words of a long name, reading at offsets
/// `i`, `i + 8`, ... while a full word before the last byte remains.
pub open spec fn fold_words(s: Seq<u8>, i: int) -> u64
    decreases s.len() - i,
{
    if 0 <= i && i + 8 < s.len() {
        word_at(s, i) ^ fold_words(s, i + 8)
    } else {
        0
    }
}

/// The accumulator fed to the mixer: prefix and suffix alone for short
/// names, with the folded interior words for names over sixteen bytes.
pub open spec fn spec_acc(s: Seq<u8>) -> u64 {
    if s.len() <= 16 {
        spec_prefix(s) ^ spec_suffix(s)
    } else {
        (spec_prefix(s) ^ fold_words(s, 8)) ^ spec_suffix(s)
    }
}

/// The finalising mixer: multiply by the golden-ratio constant, then fold
/// the high bits down with one xor-shift.
pub open spec fn spec_mix(x: u64) -> u64 {
    let y = vstd::wrapping::u64_specs::wrapping_mul(x, MAGIC_CONST);
    y ^ (y >> 35)
}

/// The 64-bit hash of a name.
pub open spec fn spec_hash(s: Seq<u8>) -> u64 {
    spec_mix(spec_acc(s))
}

/// Hashing is pure: it reads nothing but the name's bytes, so byte-equal
/// names always collide onto the same key, wherever and whenever they are
/// hashed.
pub proof fn lemma_hash_deterministic(a: Seq<u8>, b: Seq<u8>)
    requires
        a == b,
    ensures
        spec_hash(a) == spec_hash(b),
        spec_prefix(a) == spec_prefix(b),
{
}

/// One aggregation record: running statistics for one station, plus the
/// byte length of its name (`len == 0` marks an unoccupied slot).
#[derive(Clone, Copy, PartialEq, Eq, Structural, Debug)]
pub struct Entry {
    pub sum: i32,
    pub count: u16,
    pub min: i16,
    pub max: i16,
    pub len: u8,
}

/// Why a reading could not be folded into the table. A name hashing to
/// zero would alias the empty-slot sentinel; a probe window already full
/// of five other keys has no room; a counter at its ceiling cannot take
/// another sample.
#[derive(Clone, Copy, PartialEq, Eq, Structural, Debug)]
pub enum TableError {
    ZeroHash,
    ProbeOverflow,
    CountOverflow,
}

/// The entry an unoccupied slot holds.
pub open spec fn empty_entry() -> Entry {
    Entry { sum: 0, count: 0, min: 0, max: 0, len: 0 }
}

/// Largest supported capacity: slot arithmetic stays far inside the
/// machine word, and no real table comes near it.
pub const MAX_CAPACITY: u64 = 0x1000_0000_0000;

/// The mathematical content of a table: four parallel sequences, one slot
/// per index.
pub ghost struct TableView {
    pub hashes: Seq<u64>,
    pub prefixes: Seq<u64>,
    pub entries: Seq<Entry>,
    pub names: Seq<Seq<u8>>,
}

impl TableView {
    /// Number of slots.
    pub open spec fn cap(self) -> int {
        self.hashes.len() as int
    }

    /// All four sequences cover the same slots.
    pub open spec fn lens_ok(self) -> bool {
        &&& self.prefixes.len() == self.cap()
        &&& self.entries.len() == self.cap()
        &&& self.names.len() == self.cap()
    }

    /// Capacity is a power of two, at least the probe window, and bounded.
    pub open spec fn cap_ok(self) -> bool {
        &&& 8 <= self.cap() <= MAX_CAPACITY
        &&& ((self.cap() as u64) & ((self.cap() - 1) as u64)) == 0
    }

    /// A slot holds a station.
    pub open spec fn occupied(self, i: int) -> bool {
        self.entries[i].len != 0
    }

    /// The home slot of a hash: its low bits.
    pub open spec fn home(self, h: u64) -> int {
        (h & ((self.cap() - 1) as u64)) as int
    }

    /// The slot `k` steps after the home slot of `h`, wrapping.
    pub open spec fn probe_at(self, h: u64, k: int) -> int {
        if self.home(h) + k < self.cap() {
            self.home(h) + k
        } else {
            self.home(h) + k - self.cap()
        }
    }

    /// A probe stops at slot `i`: empty, or the stored key matches.
    pub open spec fn is_candidate(self, i: int, h: u64, p: u64) -> bool {
        self.hashes[i] == 0 || (self.hashes[i] == h && self.prefixes[i] == p)
    }

    /// Where a lookup lands: the first candidate among the five probed
    /// slots, or the last probed slot when the window is exhausted.
    pub open spec fn lookup_result(self, h: u64, p: u64) -> int {
        if self.is_candidate(self.probe_at(h, 0), h, p) {
            self.probe_at(h, 0)
        } else if self.is_candidate(self.probe_at(h, 1), h, p) {
            self.probe_at(h, 1)
        } else if self.is_candidate(self.probe_at(h, 2), h, p) {
            self.probe_at(h, 2)
        } else if self.is_candidate(self.probe_at(h, 3), h, p) {
            self.probe_at(h, 3)
        } else {
            self.probe_at(h, 4)
        }
    }

    /// An occupied slot is found again: it sits within the probe window of
    /// its own hash, and every slot between its home and itself is occupied.
    pub open spec fn reachable(self, i: int) -> bool {
        exists|k: int|
            0 <= k < 5 && #[trigger] self.probe_at(self.hashes[i], k) == i && (forall|m: int|
                0 <= m < k ==> self.occupied(self.probe_at(self.hashes[i], m)))
    }

    /// What each slot guarantees: an occupied slot carries the hash and
    /// prefix of its own name, sane statistics, and is reachable; an empty
    /// slot is all zero.
    pub open spec fn slot_ok(self, i: int) -> bool {
        if self.occupied(i) {
            &&& self.hashes[i] == spec_hash(self.names[i])
            &&& self.hashes[i] != 0
            &&& self.prefixes[i] == spec_prefix(self.names[i])
            &&& 1 <= self.names[i].len() <= 100
            &&& self.entries[i].len == self.names[i].len()
            &&& 1 <= self.entries[i].count
            &&& -999 <= self.entries[i].min
            &&& self.entries[i].min <= self.entries[i].max
            &&& self.entries[i].max <= 999
            &&& self.entries[i].count * self.entries[i].min <= self.entries[i].sum
            &&& self.entries[i].sum <= self.entries[i].count * self.entries[i].max
            &&& self.reachable(i)
        } else {
            &&& self.hashes[i] == 0
            &&& self.prefixes[i] == 0
            &&& self.entries[i] == empty_entry()
            &&& self.names[i].len() == 0
        }
    }

    /// No two occupied slots share a key.
    pub open spec fn keys_unique(self) -> bool {
        forall|i: int, j: int|
            0 <= i < self.cap() && 0 <= j < self.cap() && i != j && self.occupied(i)
                && self.occupied(j) ==> !(self.hashes[i] == self.hashes[j] && #[trigger] self.prefixes[i]
                == #[trigger] self.prefixes[j])
    }

    /// The table invariant.
    pub open spec fn wf(self) -> bool {
        &&& self.lens_ok()
        &&& self.cap_ok()
        &&& self.keys_unique()
        &&& forall|i: int| 0 <= i < self.cap() ==> #[trigger] self.slot_ok(i)
    }

    /// The empty table of a given capacity.
    pub open spec fn empty(cap: nat) -> TableView {
        TableView {
            hashes: Seq::new(cap, |i: int| 0u64),
            prefixes: Seq::new(cap, |i: int| 0u64),
            entries: Seq::new(cap, |i: int| empty_entry()),
            names: Seq::new(cap, |i: int| Seq::<u8>::empty()),
        }
    }

    /// The table after one reading is folded in at `slot`: a fresh record
    /// when the slot was empty, a merge into the running statistics
    /// otherwise (the first insertion pins the stored name).
    pub open spec fn apply_update(self, slot: int, name: Seq<u8>, temp: int) -> TableView {
        if self.occupied(slot) {
            TableView {
                entries: self.entries.update(slot, merged_entry(self.entries[slot], temp)),
                ..self
            }
        } else {
            TableView {
                hashes: self.hashes.update(slot, spec_hash(name)),
                prefixes: self.prefixes.update(slot, spec_prefix(name)),
                entries: self.entries.update(slot, fresh_entry(name.len() as int, temp)),
                names: self.names.update(slot, name),
            }
        }
    }
}

/// One reading merged into a running record.
pub open spec fn merged_entry(e: Entry, temp: int) -> Entry {
    Entry {
        sum: (e.sum + temp) as i32,
        count: (e.count + 1) as u16,
        min: if temp < e.min {
            temp as i16
        } else {
            e.min
        },
        max: if temp > e.max {
            temp as i16
        } else {
            e.max
        },
        len: e.len,
    }
}

/// The record a first reading creates.
pub open spec fn fresh_entry(name_len: int, temp: int) -> Entry {
    Entry {
        sum: temp as i32,
        count: 1,
        min: temp as i16,
        max: temp as i16,
        len: name_len as u8,
    }
}

/// A lookup result is always a real slot index.
pub proof fn lemma_lookup_result_range(v: TableView, h: u64, p: u64)
    requires
        v.cap_ok(),
    ensures
        0 <= v.lookup_result(h, p) < v.cap(),
{
    lemma_mask_bound(h, v.cap() as u64);
    assert(0 <= v.home(h) < v.cap());
}

/// A lookup for the key of an occupied slot lands exactly on that slot:
/// the slot lies in its own probe window, every earlier probe is occupied
/// by a different key, and no other slot holds the same key.
pub proof fn lemma_lookup_finds(v: TableView, h: u64, p: u64, j: int)
    requires
        v.wf(),
        0 <= j < v.cap(),
        v.occupied(j),
        v.hashes[j] == h,
        v.prefixes[j] == p,
    ensures
        v.lookup_result(h, p) == j,
{
    lemma_mask_bound(h, v.cap() as u64);
    assert(v.home(h) < v.cap());
    assert(v.slot_ok(j));
    let k = choose|k: int|
        0 <= k < 5 && #[trigger] v.probe_at(v.hashes[j], k) == j && (forall|m: int|
            0 <= m < k ==> v.occupied(v.probe_at(v.hashes[j], m)));
    assert forall|m: int| 0 <= m < k implies !v.is_candidate(
        #[trigger] v.probe_at(h, m),
        h,
        p,
    ) by {
        let pm = v.probe_at(h, m);
        assert(v.occupied(pm));
        assert(v.slot_ok(pm));
        assert(pm != j);
    }
    assert(v.is_candidate(j, h, p));
}

/// A power-of-two mask keeps any value below the capacity.
pub proof fn lemma_mask_bound(h: u64, c: u64)
    requires
        c != 0,
        (c & ((c - 1) as u64)) == 0,
    ensures
        (h & ((c - 1) as u64)) < c,
{
    assert((h & ((c - 1) as u64)) < c) by (bit_vector)
        requires
            c != 0 && (c & ((c - 1) as u64)) == 0,
    ;
}

/// On a value below twice the capacity, the power-of-two mask is exactly
/// the wrap-around subtraction.
pub proof fn lemma_mask_wrap(x: u64, c: u64)
    requires
        c != 0,
        (c & ((c - 1) as u64)) == 0,
        x < 2 * c,
    ensures
        (x & ((c - 1) as u64)) == (if x < c {
            x
        } else {
            (x - c) as u64
        }),
{
    assert((x & ((c - 1) as u64)) == (if x < c {
        x
    } else {
        (x - c) as u64
    })) by (bit_vector)
        requires
            c != 0 && (c & ((c - 1) as u64)) == 0 && x < 2 * c,
    ;
}

/// The aggregation table: parallel per-slot arrays of hashes, prefixes,
/// running statistics, and the pinned station names.
pub struct Table {
    hash: Vec<u64>,
    prefix: Vec<u64>,
    data: Vec<Entry>,
    names: Vec<Vec<u8>>,
}

impl View for Table {
    type V = TableView;

    closed spec fn view(&self) -> TableView {
        TableView {
            hashes: self.hash@,
            prefixes: self.prefix@,
            entries: self.data@,
            names: self.names.deep_view(),
        }
    }
}

impl Table {
    /// The first eight bytes of `name` packed little-endian, zero-padded.
    pub fn prefix(name: &[u8]) -> (p: u64)
        ensures
            p == spec_prefix(name@),
    {
        let len = name.len();
        let b0 = if len > 0 { name[0] } else { 0 };
        let b1 = if len > 1 { name[1] } else { 0 };
        let b2 = if len > 2 { name[2] } else { 0 };
        let b3 = if len > 3 { name[3] } else { 0 };
        let b4 = if len > 4 { name[4] } else { 0 };
        let b5 = if len > 5 { name[5] } else { 0 };
        let b6 = if len > 6 { name[6] } else { 0 };
        let b7 = if len > 7 { name[7] } else { 0 };
        (b0 as u64) | ((b1 as u64) << 8) | ((b2 as u64) << 16) | ((b3 as u64) << 24) | ((b4 as u64)
            << 32) | ((b5 as u64) << 40) | ((b6 as u64) << 48) | ((b7 as u64) << 56)
    }

    /// Hash a name: the 64-bit mixed hash and the raw prefix word.
    pub fn hash(name: &[u8]) -> (r: (u64, u64))
        ensures
            r.0 == spec_hash(name@),
            r.1 == spec_prefix(name@),
    {
        let len = name.len();
        let prefix = Table::prefix(name);
        let suffix = if len > 8 {
            load_word(name, len - 8)
        } else {
            0
        };
        let acc = if len <= 16 {
            prefix ^ suffix
        } else {
            let mut acc = prefix;
            let mut i: usize = 8;
            while len - i > 8
                invariant
                    8 <= i <= len,
                    len == name@.len(),
                    acc ^ fold_words(name@, i as int) == spec_prefix(name@) ^ fold_words(name@, 8),
                decreases len - i,
            {
                let w = load_word(name, i);
                proof {
                    let a = acc;
                    let f = fold_words(name@, i + 8);
                    assert((a ^ w) ^ f == a ^ (w ^ f)) by (bit_vector);
                }
                acc = acc ^ w;
                i += 8;
            }
            proof {
                let a = acc;
                assert(a ^ 0u64 == a) by (bit_vector);
            }
            acc ^ suffix
        };
        let y = acc.wrapping_mul(MAGIC_CONST);
        (y ^ (y >> 35), prefix)
    }

    /// An empty table with `size` slots. The capacity must be a power of
    /// two no smaller than the five-slot probe window.
    pub fn new(size: usize) -> (t: Table)
        requires
            8 <= size <= MAX_CAPACITY,
            ((size as u64) & ((size - 1) as u64)) == 0,
        ensures
            t@ == TableView::empty(size as nat),
            t@.wf(),
            t@.cap() == size,
    {
        let mut hash: Vec<u64> = Vec::new();
        let mut prefix: Vec<u64> = Vec::new();
        let mut data: Vec<Entry> = Vec::new();
        let mut names: Vec<Vec<u8>> = Vec::new();
        let mut i: usize = 0;
        while i < size
            invariant
                i <= size,
                hash@.len() == i,
                prefix@.len() == i,
                data@.len() == i,
                names@.len() == i,
                forall|j: int| 0 <= j < i ==> hash@[j] == 0u64,
                forall|j: int| 0 <= j < i ==> prefix@[j] == 0u64,
                forall|j: int| 0 <= j < i ==> data@[j] == empty_entry(),
                forall|j: int| 0 <= j < i ==> #[trigger] names@[j]@.len() == 0,
            decreases size - i,
        {
            hash.push(0);
            prefix.push(0);
            data.push(Entry { sum: 0, count: 0, min: 0, max: 0, len: 0 });
            names.push(Vec::new());
            i += 1;
        }
        let t = Table { hash, prefix, data, names };
        proof {
            let e = TableView::empty(size as nat);
            assert forall|j: int| 0 <= j < size implies #[trigger] t@.names[j] =~= e.names[j] by {
                assert(t@.names[j] == names@[j]@);
            }
            assert(t@.hashes =~= e.hashes);
            assert(t@.prefixes =~= e.prefixes);
            assert(t@.entries =~= e.entries);
            assert(t@.names =~= e.names);
            assert(t@ == e);
            assert forall|i: int| 0 <= i < t@.cap() implies #[trigger] t@.slot_ok(i) by {
                assert(!t@.occupied(i));
            }
        }
        t
    }

    /// The number of slots.
    pub fn capacity(&self) -> (n: usize)
        ensures
            n == self@.cap(),
    {
        self.hash.len()
    }

    /// The stored hash of a slot (zero when the slot is empty).
    pub fn slot_hash(&self, slot: usize) -> (h: u64)
        requires
            self@.lens_ok(),
            slot < self@.cap(),
        ensures
            h == self@.hashes[slot as int],
    {
        self.hash[slot]
    }

    /// The stored prefix of a slot.
    pub fn slot_prefix(&self, slot: usize) -> (p: u64)
        requires
            self@.lens_ok(),
            slot < self@.cap(),
        ensures
            p == self@.prefixes[slot as int],
    {
        self.prefix[slot]
    }

    /// The record of a slot.
    pub fn slot_entry(&self, slot: usize) -> (e: Entry)
        requires
            self@.lens_ok(),
            slot < self@.cap(),
        ensures
            e == self@.entries[slot as int],
    {
        self.data[slot]
    }

    /// Touch the home slot of a hash so its cache line is being fetched
    /// while independent work goes on; purely a latency hint.
    pub fn prefetch(&self, hash: u64)
        requires
            self@.wf(),
    {
        let size = self.data.len();
        let mask = (size as u64) - 1;
        proof {
            lemma_mask_bound(hash, size as u64);
        }
        let slot = (hash & mask) as usize;
        let _ = self.data[slot].len;
    }

    /// Find the slot for a key: the first of five probed slots that is
    /// empty or stores the key, or the last probed slot when none is.
    ///
    /// The five slot comparisons are evaluated unconditionally, so the
    /// compiler is free to vectorise them.
    pub fn lookup(&self, hash: u64, prefix: u64) -> (slot: usize)
        requires
            self@.wf(),
        ensures
            slot < self@.cap(),
            slot == self@.lookup_result(hash, prefix),
    {
        let size = self.hash.len();
        let mask = (size as u64) - 1;
        proof {
            lemma_mask_bound(hash, size as u64);
        }
        let home = hash & mask;
        let s0 = home as usize;
        let s1 = ((home + 1) & mask) as usize;
        let s2 = ((home + 2) & mask) as usize;
        let s3 = ((home + 3) & mask) as usize;
        let s4 = ((home + 4) & mask) as usize;
        proof {
            let c = size as u64;
            lemma_mask_wrap((home + 1) as u64, c);
            lemma_mask_wrap((home + 2) as u64, c);
            lemma_mask_wrap((home + 3) as u64, c);
            lemma_mask_wrap((home + 4) as u64, c);
            assert(home as int == self@.home(hash));
            assert(s0 as int == self@.probe_at(hash, 0));
            assert(s1 as int == self@.probe_at(hash, 1));
            assert(s2 as int == self@.probe_at(hash, 2));
            assert(s3 as int == self@.probe_at(hash, 3));
            assert(s4 as int == self@.probe_at(hash, 4));
        }
        let h0 = self.hash[s0];
        let h1 = self.hash[s1];
        let h2 = self.hash[s2];
        let h3 = self.hash[s3];
        let h4 = self.hash[s4];
        let p0 = self.prefix[s0];
        let p1 = self.prefix[s1];
        let p2 = self.prefix[s2];
        let p3 = self.prefix[s3];
        let p4 = self.prefix[s4];
        let e0 = h0 == 0;
        let e1 = h1 == 0;
        let e2 = h2 == 0;
        let e3 = h3 == 0;
        let e4 = h4 == 0;
        let k0 = h0 == hash;
        let k1 = h1 == hash;
        let k2 = h2 == hash;
        let k3 = h3 == hash;
        let k4 = h4 == hash;
        let q0 = p0 == prefix;
        let q1 = p1 == prefix;
        let q2 = p2 == prefix;
        let q3 = p3 == prefix;
        let q4 = p4 == prefix;
        let c0 = e0 || (k0 && q0);
        let c1 = e1 || (k1 && q1);
        let c2 = e2 || (k2 && q2);
        let c3 = e3 || (k3 && q3);
        let c4 = e4 || (k4 && q4);
        if c0 {
            s0
        } else if c1 {
            s1
        } else if c2 {
            s2
        } else if c3 {
            s3
        } else {
            s4
        }
    }

    /// Fold one reading into the slot a lookup chose: merge into the
    /// running statistics of an occupied slot, or claim an empty slot,
    /// pinning the name.
    pub fn update(&mut self, slot: usize, hash: u64, prefix: u64, name: &[u8], temp: i16)
        requires
            old(self)@.wf(),
            slot < old(self)@.cap(),
            slot == old(self)@.lookup_result(hash, prefix),
            old(self)@.is_candidate(slot as int, hash, prefix),
            hash == spec_hash(name@),
            prefix == spec_prefix(name@),
            hash != 0,
            1 <= name@.len() <= 100,
            -999 <= temp <= 999,
            old(self)@.occupied(slot as int) ==> old(self)@.entries[slot as int].count < 65535,
        ensures
            final(self)@.wf(),
            final(self)@ == old(self)@.apply_update(slot as int, name@, temp as int),
    {
        let ghost v = self@;
        let e = self.data[slot];
        if e.len != 0 {
            proof {
                assert(v.slot_ok(slot as int));
                assert(-999 * 65535 <= e.count * e.min && e.count * e.max <= 999 * 65535)
                    by (nonlinear_arith)
                    requires
                        -999 <= e.min <= e.max <= 999,
                        0 <= e.count <= 65535,
                ;
            }
            let new_e = Entry {
                sum: e.sum + temp as i32,
                count: e.count + 1,
                min: if temp < e.min {
                    temp
                } else {
                    e.min
                },
                max: if temp > e.max {
                    temp
                } else {
                    e.max
                },
                len: e.len,
            };
            self.data.set(slot, new_e);
            proof {
                lemma_update_merge_wf(v, slot as int, name@, temp as int);
                assert(self@ =~= v.apply_update(slot as int, name@, temp as int));
            }
        } else {
            proof {
                assert(v.slot_ok(slot as int));
            }
            let new_e = Entry {
                sum: temp as i32,
                count: 1,
                min: temp,
                max: temp,
                len: name.len() as u8,
            };
            self.data.set(slot, new_e);
            self.hash.set(slot, hash);
            self.prefix.set(slot, prefix);
            self.names.set(slot, copy_bytes(name));
            proof {
                lemma_update_insert_wf(v, slot as int, name@, temp as int);
                let v2 = v.apply_update(slot as int, name@, temp as int);
                assert forall|j: int| 0 <= j < v2.names.len() implies #[trigger] self@.names[j]
                    =~= v2.names[j] by {}
                assert(self@.names =~= v2.names);
                assert(self@ =~= v2);
            }
        }
    }
}

/// The occupied slots of the first `n` slots, in slot order, as
/// name-and-record pairs.
pub open spec fn entries_view(v: TableView, n: int) -> Seq<(Seq<u8>, Entry)>
    decreases n,
{
    if n <= 0 {
        Seq::empty()
    } else if v.occupied(n - 1) {
        entries_view(v, n - 1) + seq![(v.names[n - 1], v.entries[n - 1])]
    } else {
        entries_view(v, n - 1)
    }
}

/// Copy a byte slice into an owned vector.
fn copy_bytes(name: &[u8]) -> (v: Vec<u8>)
    ensures
        v@ =~= name@,
{
    let mut v: Vec<u8> = Vec::new();
    let mut i: usize = 0;
    while i < name.len()
        invariant
            i <= name@.len(),
            v@.len() == i,
            forall|j: int| 0 <= j < i ==> v@[j] == name@[j],
        decreases name@.len() - i,
    {
        v.push(name[i]);
        i += 1;
    }
    v
}

impl Table {
    /// Every occupied slot as a `(name, record)` pair, in slot order.
    pub fn entries(&self) -> (r: Vec<(Vec<u8>, Entry)>)
        requires
            self@.lens_ok(),
        ensures
            r@.len() == entries_view(self@, self@.cap()).len(),
            forall|i: int|
                0 <= i < r@.len() ==> ((#[trigger] r@[i]).0@, r@[i].1) == entries_view(
                    self@,
                    self@.cap(),
                )[i],
    {
        let size = self.data.len();
        let mut r: Vec<(Vec<u8>, Entry)> = Vec::new();
        let mut i: usize = 0;
        while i < size
            invariant
                i <= size,
                size == self@.cap(),
                self@.lens_ok(),
                r@.len() == entries_view(self@, i as int).len(),
                forall|j: int|
                    0 <= j < r@.len() ==> ((#[trigger] r@[j]).0@, r@[j].1) == entries_view(
                        self@,
                        i as int,
                    )[j],
            decreases size - i,
        {
            proof {
                assert(entries_view(self@, i + 1) == if self@.occupied(i as int) {
                    entries_view(self@, i as int) + seq![
                        (self@.names[i as int], self@.entries[i as int]),
                    ]
                } else {
                    entries_view(self@, i as int)
                });
            }
            if self.data[i].len != 0 {
                let name = copy_bytes(self.names[i].as_slice());
                r.push((name, self.data[i]));
            }
            i += 1;
        }
        r
    }
}

/// Merging a reading preserves the table invariant.
pub proof fn lemma_update_merge_wf(v: TableView, slot: int, name: Seq<u8>, temp: int)
    requires
        v.wf(),
        0 <= slot < v.cap(),
        v.occupied(slot),
        v.entries[slot].count < 65535,
        -999 <= temp <= 999,
    ensures
        v.apply_update(slot, name, temp).wf(),
{
    let v2 = v.apply_update(slot, name, temp);
    let e = v.entries[slot];
    let e2 = merged_entry(e, temp);
    assert(v.slot_ok(slot));
    assert(-999 * 65536 <= e.sum + temp <= 999 * 65536) by (nonlinear_arith)
        requires
            e.count * e.min <= e.sum <= e.count * e.max,
            -999 <= e.min <= e.max <= 999,
            0 <= e.count <= 65535,
            -999 <= temp <= 999,
    ;
    assert forall|i: int| 0 <= i < v2.cap() implies v2.occupied(i) == v.occupied(i) by {}
    assert forall|x: u64, k: int| #[trigger] v2.probe_at(x, k) == v.probe_at(x, k) by {}
    assert(e2.count * e2.min <= e2.sum && e2.sum <= e2.count * e2.max) by (nonlinear_arith)
        requires
            e2.count == e.count + 1,
            e2.sum == e.sum + temp,
            e.count * e.min <= e.sum <= e.count * e.max,
            e2.min <= e.min,
            e2.min <= temp,
            e.max <= e2.max,
            temp <= e2.max,
            0 <= e.count,
    ;
    assert forall|i: int| 0 <= i < v2.cap() implies #[trigger] v2.slot_ok(i) by {
        assert(v.slot_ok(i));
        if v2.occupied(i) {
            assert(v.reachable(i));
            let k = choose|k: int|
                0 <= k < 5 && #[trigger] v.probe_at(v.hashes[i], k) == i && (forall|m: int|
                    0 <= m < k ==> v.occupied(v.probe_at(v.hashes[i], m)));
            assert(v2.probe_at(v2.hashes[i], k) == i);
            assert forall|m: int| 0 <= m < k implies v2.occupied(
                #[trigger] v2.probe_at(v2.hashes[i], m),
            ) by {
                assert(v.occupied(v.probe_at(v.hashes[i], m)));
            }
            assert(v2.reachable(i));
        }
    }
}

/// Claiming the empty slot a lookup chose preserves the table invariant.
pub proof fn lemma_update_insert_wf(v: TableView, slot: int, name: Seq<u8>, temp: int)
    requires
        v.wf(),
        0 <= slot < v.cap(),
        !v.occupied(slot),
        slot == v.lookup_result(spec_hash(name), spec_prefix(name)),
        spec_hash(name) != 0,
        1 <= name.len() <= 100,
        -999 <= temp <= 999,
    ensures
        v.apply_update(slot, name, temp).wf(),
{
    let h = spec_hash(name);
    let p = spec_prefix(name);
    let v2 = v.apply_update(slot, name, temp);
    lemma_mask_bound(h, v.cap() as u64);
    assert(v.slot_ok(slot));
    assert forall|i: int| 0 <= i < v2.cap() implies v2.occupied(i) == (v.occupied(i) || i
        == slot) by {}
    assert forall|x: u64, k: int| #[trigger] v2.probe_at(x, k) == v.probe_at(x, k) by {}
    // No occupied slot already holds the key, else the lookup would have
    // landed there.
    assert forall|j: int|
        0 <= j < v.cap() && v.occupied(j) implies !(v.hashes[j] == h && v.prefixes[j] == p) by {
        if v.hashes[j] == h && v.prefixes[j] == p {
            lemma_lookup_finds(v, h, p, j);
        }
    }
    assert(v2.keys_unique());
    // The new slot is reachable: it is the first candidate of its window,
    // and every probe passed over was occupied (a non-candidate slot has a
    // non-zero stored hash).
    assert(v2.hashes[slot] == h);
    assert forall|m: int|
        0 <= m < 5 && !v.is_candidate(#[trigger] v.probe_at(h, m), h, p) implies v2.occupied(
        v2.probe_at(v2.hashes[slot], m),
    ) && v.probe_at(h, m) != slot by {
        let pm = v.probe_at(h, m);
        assert(0 <= pm < v.cap());
        assert(v.slot_ok(pm));
        assert(v.occupied(pm));
    }
    assert(v2.reachable(slot)) by {
        if v.is_candidate(v.probe_at(h, 0), h, p) {
            assert(v2.probe_at(v2.hashes[slot], 0) == slot);
            assert(v2.reachable(slot));
        } else if v.is_candidate(v.probe_at(h, 1), h, p) {
            assert(v2.probe_at(v2.hashes[slot], 1) == slot);
            assert forall|m: int| 0 <= m < 1 implies v2.occupied(
                #[trigger] v2.probe_at(v2.hashes[slot], m),
            ) by {
                assert(!v.is_candidate(v.probe_at(h, 0), h, p));
            }
            assert(v2.reachable(slot));
        } else if v.is_candidate(v.probe_at(h, 2), h, p) {
            assert(v2.probe_at(v2.hashes[slot], 2) == slot);
            assert forall|m: int| 0 <= m < 2 implies v2.occupied(
                #[trigger] v2.probe_at(v2.hashes[slot], m),
            ) by {
                assert(!v.is_candidate(v.probe_at(h, 0), h, p));
                assert(!v.is_candidate(v.probe_at(h, 1), h, p));
            }
            assert(v2.reachable(slot));
        } else if v.is_candidate(v.probe_at(h, 3), h, p) {
            assert(v2.probe_at(v2.hashes[slot], 3) == slot);
            assert forall|m: int| 0 <= m < 3 implies v2.occupied(
                #[trigger] v2.probe_at(v2.hashes[slot], m),
            ) by {
                assert(!v.is_candidate(v.probe_at(h, 0), h, p));
                assert(!v.is_candidate(v.probe_at(h, 1), h, p));
                assert(!v.is_candidate(v.probe_at(h, 2), h, p));
            }
            assert(v2.reachable(slot));
        } else {
            assert(v.is_candidate(slot, h, p));
            assert(v.probe_at(h, 4) == slot);
            assert(v2.probe_at(v2.hashes[slot], 4) == slot);
            assert forall|m: int| 0 <= m < 4 implies v2.occupied(
                #[trigger] v2.probe_at(v2.hashes[slot], m),
            ) by {
                assert(!v.is_candidate(v.probe_at(h, 0), h, p));
                assert(!v.is_candidate(v.probe_at(h, 1), h, p));
                assert(!v.is_candidate(v.probe_at(h, 2), h, p));
                assert(!v.is_candidate(v.probe_at(h, 3), h, p));
            }
            assert(v2.reachable(slot));
        }
    }
    let ef = fresh_entry(name.len() as int, temp);
    assert(ef.count * ef.min <= ef.sum && ef.sum <= ef.count * ef.max) by (nonlinear_arith)
        requires
            ef.count == 1,
            ef.min == temp as i16,
            ef.max == temp as i16,
            ef.sum == temp as i32,
            -999 <= temp <= 999,
    ;
    assert forall|i: int| 0 <= i < v2.cap() implies #[trigger] v2.slot_ok(i) by {
        assert(v.slot_ok(i));
        if i == slot {
            assert(v2.entries[i] == ef);
            assert(v2.slot_ok(i));
        } else if v2.occupied(i) {
            assert(v.reachable(i));
            let k = choose|k: int|
                0 <= k < 5 && #[trigger] v.probe_at(v.hashes[i], k) == i && (forall|m: int|
                    0 <= m < k ==> v.occupied(v.probe_at(v.hashes[i], m)));
            assert(v2.probe_at(v2.hashes[i], k) == i);
            assert forall|m: int| 0 <= m < k implies v2.occupied(
                #[trigger] v2.probe_at(v2.hashes[i], m),
            ) by {
                assert(v.occupied(v.probe_at(v.hashes[i], m)));
            }
            assert(v2.reachable(i));
        }
    }
}

} // verus!
