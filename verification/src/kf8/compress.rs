//! PalmDOC compression of decoded text records.
//!
//! The compressor keeps one open-addressed table of 65536 slots. Every slot
//! remembers where a 3..=10-byte key last occurred in the current record; a
//! generation counter invalidates the whole table between records. The
//! contract of `compress` is stated over a dictionary model (`Map` from key to
//! its latest position), which the table is proved to implement.

use vstd::prelude::*;
use vstd::set_lib::{set_int_range, lemma_int_range, lemma_len_subset};
use crate::kf8::wire::{be16, push_bytes, push_u16_be};

verus! {

/// Number of slots in the match table.
pub const MATCH_TABLE_SIZE: usize = 65536;

/// Longest source that one call can compress: each visited position adds at
/// most eight keys, and the table must keep a free slot.
pub const MAX_COMPRESS_SOURCE: usize = 8191;

/// One slot of the match table.
#[derive(Debug, Clone, Copy)]
struct MatchSlot {
    hash: u32,
    position: u32,
    length: u8,
    generation: u32,
}

impl MatchSlot {
    /// The slot that belongs to no record.
    fn empty() -> (s: MatchSlot)
        ensures
            s.generation == 0,
    {
        MatchSlot { hash: 0, position: 0, length: 0, generation: 0 }
    }
}

// ---------------------------------------------------------------------------
// Hashing.

/// FNV-1a over a byte string.
pub open spec fn fnv(s: Seq<u8>) -> u32
    decreases s.len(),
{
    if s.len() == 0 {
        2166136261u32
    } else {
        ((((fnv(s.drop_last()) ^ (s.last() as u32)) as nat) * 16777619nat) % 0x1_0000_0000nat) as u32
    }
}

/// The slot at which probing for a hash starts.
pub open spec fn home(h: u32) -> int {
    ((((h as nat) * 2654435761nat) % 0x1_0000_0000nat) % 65536) as int
}

/// The slot `d` steps after `h`.
pub open spec fn probe(h: int, d: int) -> int {
    (h + d) % 65536
}

/// How many steps separate slot `i` from `h`.
pub open spec fn dist(h: int, i: int) -> int {
    (i - h + 65536) % 65536
}

// ---------------------------------------------------------------------------
// The dictionary model of the table.

/// The key that a slot stands for in `s`.
spec fn slot_key(s: Seq<u8>, slot: MatchSlot) -> Seq<u8> {
    s.subrange(slot.position as int, slot.position + slot.length)
}

/// Slot `i` belongs to the current record.
spec fn occ(t: Seq<MatchSlot>, gen: u32, i: int) -> bool {
    t[i].generation == gen
}

/// The set of slots in use.
spec fn occ_set(t: Seq<MatchSlot>, gen: u32) -> Set<int> {
    Set::new(|i: int| 0 <= i < 65536 && t[i].generation == gen)
}

/// A used slot describes an entry of the dictionary `d`.
spec fn slot_ok(
    s: Seq<u8>,
    gen: u32,
    d: Map<Seq<u8>, int>,
    bound: int,
    t: Seq<MatchSlot>,
    i: int,
) -> bool {
    t[i].generation == gen ==> {
        &&& 3 <= t[i].length <= 10
        &&& t[i].position + t[i].length <= bound
        &&& t[i].hash == fnv(slot_key(s, t[i]))
        &&& d.contains_key(slot_key(s, t[i]))
        &&& d[slot_key(s, t[i])] == t[i].position
    }
}

/// The table implements the dictionary `d` of keys that end at or before
/// `bound` in `s`: every used slot is an entry, every entry has exactly one
/// slot, and every slot is reachable from its home slot over used slots.
spec fn table_inv(
    t: Seq<MatchSlot>,
    gen: u32,
    s: Seq<u8>,
    d: Map<Seq<u8>, int>,
    bound: int,
) -> bool {
    &&& t.len() == 65536
    &&& 1 <= gen
    &&& bound <= s.len()
    &&& forall|i: int| 0 <= i < 65536 ==> #[trigger] t[i].generation <= gen
    &&& forall|i: int| 0 <= i < 65536 ==> #[trigger] slot_ok(s, gen, d, bound, t, i)
    &&& forall|k: Seq<u8>| #[trigger]
        d.contains_key(k) ==> exists|i: int|
            0 <= i < 65536 && occ(t, gen, i) && #[trigger] slot_key(s, t[i]) == k
    &&& forall|i: int, j: int|
        0 <= i < 65536 && 0 <= j < 65536 && i != j && #[trigger] occ(t, gen, i) && #[trigger] occ(
            t,
            gen,
            j,
        ) ==> slot_key(s, t[i]) != slot_key(s, t[j])
    &&& forall|i: int, e: int|
        0 <= i < 65536 && #[trigger] occ(t, gen, i) && 0 <= e < dist(home(t[i].hash), i) ==> occ(
            t,
            gen,
            #[trigger] probe(home(t[i].hash), e),
        )
}

// ---------------------------------------------------------------------------
// Arithmetic on slot indices.

proof fn lemma_probe_dist(h: int, i: int)
    requires
        0 <= h < 65536,
        0 <= i < 65536,
    ensures
        0 <= dist(h, i) < 65536,
        probe(h, dist(h, i)) == i,
{
    if i >= h {
        assert(dist(h, i) == i - h);
    } else {
        assert(dist(h, i) == i - h + 65536);
    }
}

proof fn lemma_dist_probe(h: int, e: int)
    requires
        0 <= h < 65536,
        0 <= e < 65536,
    ensures
        0 <= probe(h, e) < 65536,
        dist(h, probe(h, e)) == e,
{
    if h + e < 65536 {
        assert(probe(h, e) == h + e);
    } else {
        assert(probe(h, e) == h + e - 65536);
    }
}

proof fn lemma_probe_next(h: int, e: int)
    requires
        0 <= h < 65536,
        0 <= e,
        e + 1 < 65536,
    ensures
        probe(h, e + 1) == (probe(h, e) + 1) % 65536,
{
    if h + e + 1 < 65536 {
    } else if h + e < 65536 {
        assert(h + e + 1 == 65536);
    } else {
        assert(probe(h, e) == h + e - 65536);
    }
}

proof fn lemma_occ_finite(t: Seq<MatchSlot>, gen: u32)
    ensures
        occ_set(t, gen).finite(),
        occ_set(t, gen).len() <= 65536,
{
    lemma_int_range(0, 65536);
    lemma_len_subset(occ_set(t, gen), set_int_range(0, 65536));
}

/// When every slot after `h` is used, the table is full.
proof fn lemma_full(t: Seq<MatchSlot>, gen: u32, h: int)
    requires
        0 <= h < 65536,
        forall|e: int| 0 <= e < 65536 ==> occ(t, gen, #[trigger] probe(h, e)),
    ensures
        occ_set(t, gen).len() >= 65536,
{
    lemma_occ_finite(t, gen);
    lemma_int_range(0, 65536);
    assert forall|i: int| #[trigger] set_int_range(0, 65536).contains(i) implies occ_set(
        t,
        gen,
    ).contains(i) by {
        lemma_probe_dist(h, i);
        assert(occ(t, gen, probe(h, dist(h, i))));
    }
    lemma_len_subset(set_int_range(0, 65536), occ_set(t, gen));
}

proof fn lemma_home_range(h: u32)
    ensures
        0 <= home(h) < 65536,
{
}

/// Probing from the home slot of `k` met only used slots holding other keys
/// and then a free slot: `k` is not in the dictionary.
proof fn lemma_absent(
    t: Seq<MatchSlot>,
    gen: u32,
    s: Seq<u8>,
    d: Map<Seq<u8>, int>,
    bound: int,
    k: Seq<u8>,
    steps: int,
)
    requires
        table_inv(t, gen, s, d, bound),
        0 <= steps < 65536,
        forall|e: int|
            0 <= e < steps ==> occ(t, gen, #[trigger] probe(home(fnv(k)), e)) && slot_key(
                s,
                t[probe(home(fnv(k)), e)],
            ) != k,
        !occ(t, gen, probe(home(fnv(k)), steps)),
    ensures
        !d.contains_key(k),
{
    let h = home(fnv(k));
    lemma_home_range(fnv(k));
    if d.contains_key(k) {
        let j = choose|j: int| 0 <= j < 65536 && occ(t, gen, j) && #[trigger] slot_key(s, t[j]) == k;
        assert(slot_ok(s, gen, d, bound, t, j));
        assert(t[j].hash == fnv(k));
        lemma_probe_dist(h, j);
        let e = dist(h, j);
        if e < steps {
            assert(occ(t, gen, probe(h, e)));
        } else if e == steps {
        } else {
            assert(occ(t, gen, probe(home(t[j].hash), steps)));
        }
    }
}

// ---------------------------------------------------------------------------
// Table updates.

/// Writing a new slot at the first free probe position keeps the invariant.
proof fn lemma_insert_new(
    t: Seq<MatchSlot>,
    gen: u32,
    s: Seq<u8>,
    d: Map<Seq<u8>, int>,
    bound: int,
    k: Seq<u8>,
    start: int,
    steps: int,
    slot: MatchSlot,
)
    requires
        table_inv(t, gen, s, d, bound),
        0 <= steps < 65536,
        !d.contains_key(k),
        forall|e: int| 0 <= e < steps ==> occ(t, gen, #[trigger] probe(home(fnv(k)), e)),
        !occ(t, gen, probe(home(fnv(k)), steps)),
        0 <= start,
        3 <= k.len() <= 10,
        start + k.len() <= bound,
        s.subrange(start, start + k.len()) == k,
        slot.hash == fnv(k),
        slot.position == start,
        slot.length == k.len(),
        slot.generation == gen,
    ensures
        table_inv(t.update(probe(home(fnv(k)), steps), slot), gen, s, d.insert(k, start), bound),
        occ_set(t.update(probe(home(fnv(k)), steps), slot), gen) == occ_set(t, gen).insert(
            probe(home(fnv(k)), steps),
        ),
{
    let h = home(fnv(k));
    lemma_home_range(fnv(k));
    lemma_dist_probe(h, steps);
    let i = probe(h, steps);
    let t2 = t.update(i, slot);
    let d2 = d.insert(k, start);
    assert(slot_key(s, slot) == k);
    assert forall|j: int| 0 <= j < 65536 implies #[trigger] slot_ok(s, gen, d2, bound, t2, j) by {
        assert(slot_ok(s, gen, d, bound, t, j));
        if j != i && occ(t, gen, j) {
            assert(slot_key(s, t[j]) != k);
        }
    }
    assert forall|kk: Seq<u8>| #[trigger] d2.contains_key(kk) implies exists|j: int|
        0 <= j < 65536 && occ(t2, gen, j) && #[trigger] slot_key(s, t2[j]) == kk by {
        if kk == k {
            assert(slot_key(s, t2[i]) == kk);
        } else {
            assert(d.contains_key(kk));
            let j = choose|j: int| 0 <= j < 65536 && occ(t, gen, j) && #[trigger] slot_key(s, t[j]) == kk;
            assert(j != i);
            assert(slot_key(s, t2[j]) == kk);
        }
    }
    assert forall|a: int, b: int|
        0 <= a < 65536 && 0 <= b < 65536 && a != b && #[trigger] occ(t2, gen, a) && #[trigger] occ(
            t2,
            gen,
            b,
        ) implies slot_key(s, t2[a]) != slot_key(s, t2[b]) by {
        if a == i {
            assert(slot_ok(s, gen, d, bound, t, b));
        } else if b == i {
            assert(slot_ok(s, gen, d, bound, t, a));
        } else {
            assert(occ(t, gen, a) && occ(t, gen, b));
        }
    }
    assert forall|a: int, e: int|
        0 <= a < 65536 && #[trigger] occ(t2, gen, a) && 0 <= e < dist(home(t2[a].hash), a) implies occ(
        t2,
        gen,
        #[trigger] probe(home(t2[a].hash), e),
    ) by {
        if a == i {
            assert(occ(t, gen, probe(h, e)));
        } else {
            assert(occ(t, gen, a));
            assert(occ(t, gen, probe(home(t[a].hash), e)));
        }
    }
    assert(occ_set(t2, gen) =~= occ_set(t, gen).insert(i));
}

/// Moving the position of the slot that holds `k` to a later occurrence of
/// `k` keeps the invariant.
proof fn lemma_update_position(
    t: Seq<MatchSlot>,
    gen: u32,
    s: Seq<u8>,
    d: Map<Seq<u8>, int>,
    bound: int,
    k: Seq<u8>,
    start: int,
    i: int,
    slot: MatchSlot,
)
    requires
        table_inv(t, gen, s, d, bound),
        0 <= i < 65536,
        occ(t, gen, i),
        slot_key(s, t[i]) == k,
        0 <= start,
        start + k.len() <= bound,
        s.subrange(start, start + k.len()) == k,
        slot.hash == t[i].hash,
        slot.length == t[i].length,
        slot.generation == gen,
        slot.position == start,
    ensures
        table_inv(t.update(i, slot), gen, s, d.insert(k, start), bound),
        occ_set(t.update(i, slot), gen) == occ_set(t, gen),
{
    let t2 = t.update(i, slot);
    let d2 = d.insert(k, start);
    assert(slot_ok(s, gen, d, bound, t, i));
    assert(slot_key(s, slot) == k);
    assert forall|j: int| 0 <= j < 65536 implies #[trigger] slot_ok(s, gen, d2, bound, t2, j) by {
        assert(slot_ok(s, gen, d, bound, t, j));
        if j != i && occ(t, gen, j) {
            assert(slot_key(s, t[j]) != slot_key(s, t[i]));
        }
    }
    assert forall|kk: Seq<u8>| #[trigger] d2.contains_key(kk) implies exists|j: int|
        0 <= j < 65536 && occ(t2, gen, j) && #[trigger] slot_key(s, t2[j]) == kk by {
        if kk == k {
            assert(slot_key(s, t2[i]) == kk);
        } else {
            let j = choose|j: int| 0 <= j < 65536 && occ(t, gen, j) && #[trigger] slot_key(s, t[j]) == kk;
            assert(j != i);
            assert(slot_key(s, t2[j]) == kk);
        }
    }
    assert forall|a: int, b: int|
        0 <= a < 65536 && 0 <= b < 65536 && a != b && #[trigger] occ(t2, gen, a) && #[trigger] occ(
            t2,
            gen,
            b,
        ) implies slot_key(s, t2[a]) != slot_key(s, t2[b]) by {
        assert(occ(t, gen, a) && occ(t, gen, b));
    }
    assert forall|a: int, e: int|
        0 <= a < 65536 && #[trigger] occ(t2, gen, a) && 0 <= e < dist(home(t2[a].hash), a) implies occ(
        t2,
        gen,
        #[trigger] probe(home(t2[a].hash), e),
    ) by {
        assert(occ(t, gen, a));
        assert(occ(t, gen, probe(home(t[a].hash), e)));
    }
    assert(occ_set(t2, gen) =~= occ_set(t, gen));
}

/// A larger bound keeps the invariant.
proof fn lemma_bound_grow(
    t: Seq<MatchSlot>,
    gen: u32,
    s: Seq<u8>,
    d: Map<Seq<u8>, int>,
    bound: int,
    bound2: int,
)
    requires
        table_inv(t, gen, s, d, bound),
        bound <= bound2 <= s.len(),
    ensures
        table_inv(t, gen, s, d, bound2),
{
    assert forall|j: int| 0 <= j < 65536 implies #[trigger] slot_ok(s, gen, d, bound2, t, j) by {
        assert(slot_ok(s, gen, d, bound, t, j));
    }
}

// ---------------------------------------------------------------------------
// Executable table operations.

/// Byte-for-byte comparison of two ranges of `s`.
fn ranges_equal(s: &[u8], a: usize, b: usize, length: usize) -> (r: bool)
    requires
        a + length <= s@.len(),
        b + length <= s@.len(),
    ensures
        r == (s@.subrange(a as int, a + length) == s@.subrange(b as int, b + length)),
{
    let n = s.len();
    let mut i: usize = 0;
    while i < length
        invariant
            i <= length,
            n == s@.len(),
            a + length <= s@.len(),
            b + length <= s@.len(),
            forall|j: int| 0 <= j < i ==> s@.subrange(a as int, a + length)[j] == #[trigger] s@.subrange(b as int, b + length)[j],
        decreases length - i,
    {
        if s[a + i] != s[b + i] {
            assert(s@.subrange(a as int, a + length)[i as int] != s@.subrange(b as int, b + length)[i as int]);
            return false;
        }
        i = i + 1;
    }
    assert(s@.subrange(a as int, a + length) =~= s@.subrange(b as int, b + length));
    true
}

/// FNV-1a hash of `source[start..start + length]`.
fn hash(source: &[u8], start: usize, length: usize) -> (h: u32)
    requires
        start + length <= source@.len(),
    ensures
        h == fnv(source@.subrange(start as int, start + length)),
{
    let n = source.len();
    let end = start + length;
    let mut h: u32 = 2_166_136_261;
    let mut i: usize = start;
    assert(source@.subrange(start as int, start as int) =~= Seq::<u8>::empty());
    while i < end
        invariant
            start <= i <= end,
            end == start + length,
            n == source@.len(),
            start + length <= source@.len(),
            h == fnv(source@.subrange(start as int, i as int)),
        decreases end - i,
    {
        let byte = source[i];
        assert(source@.subrange(start as int, i + 1).drop_last() =~= source@.subrange(start as int, i as int));
        h = (h ^ (byte as u32)).wrapping_mul(16_777_619);
        i = i + 1;
    }
    h
}

/// Home slot of a hash.
fn table_index(h: u32) -> (i: usize)
    ensures
        i == home(h),
        i < 65536,
{
    let m = h.wrapping_mul(2_654_435_761);
    assert(m & 0xffff == m % 65536) by (bit_vector);
    (m & 0xffff) as usize
}

// ---------------------------------------------------------------------------
// The compressed stream, stated over the dictionary model.

/// A byte that PalmDOC stores as itself.
pub open spec fn is_literal(b: u8) -> bool {
    b == 0 || (8 < b && b < 0x80)
}

/// Record every key of length `len..=10` that ends at `c`, each at its start.
pub open spec fn insert_keys(s: Seq<u8>, c: int, d: Map<Seq<u8>, int>, len: int) -> Map<
    Seq<u8>,
    int,
>
    decreases 11 - len,
{
    if len < 3 || len > 10 {
        d
    } else {
        let d2 = if c >= len {
            d.insert(s.subrange(c - len, c), c - len)
        } else {
            d
        };
        insert_keys(s, c, d2, len + 1)
    }
}

/// The longest key of length at most `len` that starts at `c` and was last
/// seen at most 2047 bytes back: its position and length.
pub open spec fn find_match(s: Seq<u8>, c: int, d: Map<Seq<u8>, int>, len: int) -> Option<
    (int, int),
>
    decreases len,
{
    if len < 3 {
        None
    } else {
        let k = s.subrange(c, c + len);
        if d.contains_key(k) && c - d[k] <= 2047 {
            Some((d[k], len))
        } else {
            find_match(s, c, d, len - 1)
        }
    }
}

pub proof fn lemma_find_match_len(s: Seq<u8>, c: int, d: Map<Seq<u8>, int>, len: int)
    ensures
        find_match(s, c, d, len) matches Some((p, l)) ==> 3 <= l <= len,
    decreases len,
{
    if len >= 3 {
        lemma_find_match_len(s, c, d, len - 1);
    }
}

/// End of a run of at most eight bytes that PalmDOC stores behind a count.
pub open spec fn run_end(s: Seq<u8>, i: int, n: int) -> int
    decreases s.len() - i,
{
    if 0 <= i < s.len() && n < 8 && !is_literal(s[i]) {
        run_end(s, i + 1, n + 1)
    } else {
        i
    }
}

pub proof fn lemma_run_end(s: Seq<u8>, i: int, n: int)
    requires
        0 <= i <= s.len(),
        1 <= n <= 8,
    ensures
        i <= run_end(s, i, n) <= s.len(),
        run_end(s, i, n) - i <= 8 - n,
    decreases s.len() - i,
{
    if 0 <= i < s.len() && n < 8 && !is_literal(s[i]) {
        lemma_run_end(s, i + 1, n + 1);
    }
}

/// The two-byte back reference to `distance` bytes back, `length` long.
pub open spec fn match_code(distance: int, length: int) -> Seq<u8> {
    be16((0x8000 + distance * 8 + (length - 3)) as u16)
}

/// The compressed form of `s[c..]`, given the dictionary `d` of keys seen so far.
pub open spec fn compress_from(s: Seq<u8>, c: int, d: Map<Seq<u8>, int>) -> Seq<u8>
    decreases s.len() - c,
{
    if c < 0 || c >= s.len() {
        Seq::empty()
    } else {
        let d1 = insert_keys(s, c, d, 3);
        let m = if c > 10 && s.len() - c > 10 {
            find_match(s, c, d1, 10)
        } else {
            None
        };
        match m {
            Some((p, l)) => {
                proof {
                    lemma_find_match_len(s, c, d1, 10);
                }
                match_code(c - p, l) + compress_from(s, c + l, d1)
            },
            None => {
                let b = s[c];
                if b == 0x20 && c + 1 < s.len() && 0x40 <= s[c + 1] && s[c + 1] <= 0x7f {
                    seq![(s[c + 1] + 0x80) as u8] + compress_from(s, c + 2, d1)
                } else if is_literal(b) {
                    seq![b] + compress_from(s, c + 1, d1)
                } else {
                    proof {
                        lemma_run_end(s, c + 1, 1);
                    }
                    let e = run_end(s, c + 1, 1);
                    seq![(e - c) as u8] + s.subrange(c, e) + compress_from(s, e, d1)
                }
            },
        }
    }
}

/// PalmDOC compression of one record.
pub open spec fn palmdoc_compress(s: Seq<u8>) -> Seq<u8> {
    compress_from(s, 0, Map::empty())
}

// ---------------------------------------------------------------------------
// The compressor.

/// Allocation-free-after-initialization PalmDOC dictionary: one fixed
/// open-addressed table, sufficient for every distinct (length, 3..=10-byte)
/// key of one record. A stored position is checked byte-for-byte after
/// hashing, so collisions cannot change the stream.
#[derive(Debug)]
pub struct PalmDocCompressor {
    table: Vec<MatchSlot>,
    generation: u32,
}

impl PalmDocCompressor {
    /// The table has its full size and no slot is newer than the generation.
    pub closed spec fn wf(&self) -> bool {
        &&& self.table@.len() == 65536
        &&& forall|i: int| 0 <= i < 65536 ==> #[trigger] self.table@[i].generation <= self.generation
    }

    /// A compressor with an empty table.
    pub fn new() -> (c: Self)
        ensures
            c.wf(),
    {
        let mut table: Vec<MatchSlot> = Vec::new();
        let mut i: usize = 0;
        while i < MATCH_TABLE_SIZE
            invariant
                i <= MATCH_TABLE_SIZE,
                table@.len() == i,
                forall|j: int| 0 <= j < i ==> #[trigger] table@[j].generation == 0,
            decreases MATCH_TABLE_SIZE - i,
        {
            table.push(MatchSlot::empty());
            i = i + 1;
        }
        PalmDocCompressor { table, generation: 0 }
    }

    /// Start a new record: every slot becomes stale.
    fn begin_record(&mut self)
        requires
            old(self).wf(),
        ensures
            final(self).table@.len() == 65536,
            final(self).generation >= 1,
            forall|i: int|
                0 <= i < 65536 ==> #[trigger] final(self).table@[i].generation < final(self).generation,
    {
        self.generation = self.generation.wrapping_add(1);
        if self.generation == 0 {
            let mut i: usize = 0;
            while i < MATCH_TABLE_SIZE
                invariant
                    i <= MATCH_TABLE_SIZE,
                    self.table@.len() == 65536,
                    forall|j: int| 0 <= j < i ==> #[trigger] self.table@[j].generation == 0,
                decreases MATCH_TABLE_SIZE - i,
            {
                self.table.set(i, MatchSlot::empty());
                i = i + 1;
            }
            self.generation = 1;
        }
    }

    /// The latest position of the key `source[start..start + length]`.
    fn find(
        &self,
        source: &[u8],
        start: usize,
        length: usize,
        h: u32,
        Ghost(d): Ghost<Map<Seq<u8>, int>>,
        Ghost(bound): Ghost<int>,
    ) -> (r: Option<usize>)
        requires
            table_inv(self.table@, self.generation, source@, d, bound),
            occ_set(self.table@, self.generation).len() < 65536,
            3 <= length <= 10,
            start + length <= source@.len(),
            h == fnv(source@.subrange(start as int, start + length)),
        ensures
            ({
                let k = source@.subrange(start as int, start + length);
                match r {
                    Some(p) => d.contains_key(k) && p == d[k],
                    None => !d.contains_key(k),
                }
            }),
    {
        let ghost k = source@.subrange(start as int, start + length);
        let ghost hh = home(h);
        let mut index = table_index(h);
        let ghost mut steps: int = 0;
        loop
            invariant
                table_inv(self.table@, self.generation, source@, d, bound),
                occ_set(self.table@, self.generation).len() < 65536,
                3 <= length <= 10,
                start + length <= source@.len(),
                k == source@.subrange(start as int, start + length),
                h == fnv(k),
                hh == home(h),
                0 <= hh < 65536,
                0 <= steps < 65536,
                index == probe(hh, steps),
                forall|e: int|
                    0 <= e < steps ==> occ(self.table@, self.generation, #[trigger] probe(hh, e))
                        && slot_key(source@, self.table@[probe(hh, e)]) != k,
            decreases 65536 - steps,
        {
            proof {
                lemma_dist_probe(hh, steps);
            }
            let slot = self.table[index];
            if slot.generation != self.generation {
                proof {
                    lemma_absent(self.table@, self.generation, source@, d, bound, k, steps);
                }
                return None;
            }
            proof {
                assert(slot_ok(source@, self.generation, d, bound, self.table@, index as int));
            }
            if slot.hash == h && slot.length as usize == length && ranges_equal(
                source,
                slot.position as usize,
                start,
                length,
            ) {
                return Some(slot.position as usize);
            }
            proof {
                if steps + 1 == 65536 {
                    assert forall|e: int| 0 <= e < 65536 implies occ(
                        self.table@,
                        self.generation,
                        #[trigger] probe(hh, e),
                    ) by {
                        if e < steps {
                        }
                    }
                    lemma_full(self.table@, self.generation, hh);
                }
                lemma_probe_next(hh, steps);
            }
            let next = index + 1;
            assert(next & 0xffff == next % 65536) by (bit_vector)
                requires
                    next <= 65536,
            ;
            index = next & 0xffff;
            proof {
                steps = steps + 1;
            }
        }
    }

    /// Record that the key `source[start..start + length]` last occurred at `start`.
    fn insert(
        &mut self,
        source: &[u8],
        start: usize,
        length: usize,
        h: u32,
        Ghost(d): Ghost<Map<Seq<u8>, int>>,
        Ghost(bound): Ghost<int>,
    )
        requires
            table_inv(old(self).table@, old(self).generation, source@, d, bound),
            occ_set(old(self).table@, old(self).generation).len() < 65536,
            3 <= length <= 10,
            start + length <= bound,
            source@.len() <= MAX_COMPRESS_SOURCE,
            h == fnv(source@.subrange(start as int, start + length)),
        ensures
            final(self).generation == old(self).generation,
            table_inv(
                final(self).table@,
                final(self).generation,
                source@,
                d.insert(source@.subrange(start as int, start + length), start as int),
                bound,
            ),
            occ_set(final(self).table@, final(self).generation).len() <= occ_set(
                old(self).table@,
                old(self).generation,
            ).len() + 1,
    {
        let ghost k = source@.subrange(start as int, start + length);
        let ghost hh = home(h);
        let mut index = table_index(h);
        let ghost mut steps: int = 0;
        proof {
            lemma_occ_finite(self.table@, self.generation);
        }
        loop
            invariant
                self.table@ == old(self).table@,
                self.generation == old(self).generation,
                table_inv(self.table@, self.generation, source@, d, bound),
                occ_set(self.table@, self.generation).len() < 65536,
                occ_set(self.table@, self.generation).finite(),
                3 <= length <= 10,
                start + length <= bound,
                source@.len() <= MAX_COMPRESS_SOURCE,
                k == source@.subrange(start as int, start + length),
                h == fnv(k),
                hh == home(h),
                0 <= hh < 65536,
                0 <= steps < 65536,
                index == probe(hh, steps),
                forall|e: int|
                    0 <= e < steps ==> occ(self.table@, self.generation, #[trigger] probe(hh, e))
                        && slot_key(source@, self.table@[probe(hh, e)]) != k,
            decreases 65536 - steps,
        {
            proof {
                lemma_dist_probe(hh, steps);
            }
            let slot = self.table[index];
            if slot.generation != self.generation {
                let fresh = MatchSlot {
                    hash: h,
                    position: start as u32,
                    length: length as u8,
                    generation: self.generation,
                };
                proof {
                    lemma_absent(self.table@, self.generation, source@, d, bound, k, steps);
                    lemma_insert_new(
                        self.table@,
                        self.generation,
                        source@,
                        d,
                        bound,
                        k,
                        start as int,
                        steps,
                        fresh,
                    );
                }
                self.table.set(index, fresh);
                return;
            }
            proof {
                assert(slot_ok(source@, self.generation, d, bound, self.table@, index as int));
            }
            if slot.hash == h && slot.length as usize == length && ranges_equal(
                source,
                slot.position as usize,
                start,
                length,
            ) {
                let moved = MatchSlot {
                    hash: slot.hash,
                    position: start as u32,
                    length: slot.length,
                    generation: slot.generation,
                };
                proof {
                    lemma_update_position(
                        self.table@,
                        self.generation,
                        source@,
                        d,
                        bound,
                        k,
                        start as int,
                        index as int,
                        moved,
                    );
                }
                self.table.set(index, moved);
                return;
            }
            proof {
                if steps + 1 == 65536 {
                    assert forall|e: int| 0 <= e < 65536 implies occ(
                        self.table@,
                        self.generation,
                        #[trigger] probe(hh, e),
                    ) by {
                        if e < steps {
                        }
                    }
                    lemma_full(self.table@, self.generation, hh);
                }
                lemma_probe_next(hh, steps);
            }
            let next = index + 1;
            assert(next & 0xffff == next % 65536) by (bit_vector)
                requires
                    next <= 65536,
            ;
            index = next & 0xffff;
            proof {
                steps = steps + 1;
            }
        }
    }

    /// Compress one record and append the result to `encoded`.
    ///
    /// The table has 65536 slots and each visited position adds at most eight
    /// keys, so a source of up to 8191 bytes always leaves a free slot.
    pub fn compress(&mut self, source: &[u8], encoded: &mut Vec<u8>)
        requires
            old(self).wf(),
            source@.len() <= MAX_COMPRESS_SOURCE,
        ensures
            final(self).wf(),
            final(encoded)@ == old(encoded)@ + palmdoc_compress(source@),
    {
        self.begin_record();
        let ghost s = source@;
        let ghost mut d: Map<Seq<u8>, int> = Map::empty();
        let ghost total = old(encoded)@ + palmdoc_compress(source@);
        let n = source.len();
        let mut cursor: usize = 0;
        proof {
            assert(occ_set(self.table@, self.generation) =~= Set::empty());
            assert forall|i: int| 0 <= i < 65536 implies #[trigger] slot_ok(
                s,
                self.generation,
                d,
                0,
                self.table@,
                i,
            ) by {
                assert(self.table@[i].generation < self.generation);
            }
            assert forall|i: int, e: int|
                0 <= i < 65536 && #[trigger] occ(self.table@, self.generation, i) && 0 <= e < dist(
                    home(self.table@[i].hash),
                    i,
                ) implies occ(
                self.table@,
                self.generation,
                #[trigger] probe(home(self.table@[i].hash), e),
            ) by {
                assert(self.table@[i].generation < self.generation);
            }
            assert(table_inv(self.table@, self.generation, s, d, 0));
        }
        while cursor < n
            invariant
                n == s.len(),
                s == source@,
                n <= MAX_COMPRESS_SOURCE,
                cursor <= n,
                table_inv(self.table@, self.generation, s, d, cursor as int),
                occ_set(self.table@, self.generation).len() <= 8 * cursor,
                encoded@ + compress_from(s, cursor as int, d) == total,
            decreases n - cursor,
        {
            let ghost d0 = d;
            let ghost c0 = cursor as int;
            let mut length: usize = 3;
            while length <= 10
                invariant
                    n == s.len(),
                    s == source@,
                    n <= MAX_COMPRESS_SOURCE,
                    cursor < n,
                    3 <= length <= 11,
                    table_inv(self.table@, self.generation, s, d, cursor as int),
                    occ_set(self.table@, self.generation).len() <= 8 * cursor + (length - 3),
                    insert_keys(s, cursor as int, d, length as int) == insert_keys(
                        s,
                        cursor as int,
                        d0,
                        3,
                    ),
                decreases 11 - length,
            {
                if cursor >= length {
                    let position = cursor - length;
                    let h = hash(source, position, length);
                    self.insert(source, position, length, h, Ghost(d), Ghost(cursor as int));
                    proof {
                        d = d.insert(s.subrange(position as int, cursor as int), position as int);
                    }
                }
                length = length + 1;
            }
            let ghost d1 = d;
            assert(d1 == insert_keys(s, cursor as int, d0, 3));
            let mut found = false;
            let mut match_position: usize = 0;
            let mut match_length: usize = 0;
            if cursor > 10 && n - cursor > 10 {
                let mut length: usize = 10;
                while !found && length >= 3
                    invariant
                        n == s.len(),
                        s == source@,
                        10 < cursor,
                        cursor + 10 < n,
                        length <= 10,
                        table_inv(self.table@, self.generation, s, d, cursor as int),
                        occ_set(self.table@, self.generation).len() < 65536,
                        !found ==> find_match(s, cursor as int, d, 10) == find_match(
                            s,
                            cursor as int,
                            d,
                            length as int,
                        ),
                        found ==> find_match(s, cursor as int, d, 10) == Some(
                            (match_position as int, match_length as int),
                        ),
                        found ==> 3 <= match_length <= 10 && match_position + match_length
                            <= cursor && cursor - match_position <= 2047,
                    decreases length + (if found { 0int } else { 1int }),
                {
                    let h = hash(source, cursor, length);
                    let r = self.find(source, cursor, length, h, Ghost(d), Ghost(cursor as int));
                    match r {
                        Some(position) => {
                            proof {
                                let k = s.subrange(cursor as int, cursor + length);
                                let j = choose|j: int|
                                    0 <= j < 65536 && occ(self.table@, self.generation, j)
                                        && #[trigger] slot_key(s, self.table@[j]) == k;
                                assert(slot_ok(s, self.generation, d, cursor as int, self.table@, j));
                            }
                            if cursor - position <= 2047 {
                                found = true;
                                match_position = position;
                                match_length = length;
                            } else {
                                length = length - 1;
                            }
                        },
                        None => {
                            length = length - 1;
                        },
                    }
                }
            }
            let ghost m = if cursor > 10 && n - cursor > 10 {
                find_match(s, cursor as int, d1, 10)
            } else {
                None
            };
            assert(found ==> m == Some((match_position as int, match_length as int)));
            assert(!found ==> m is None);
            if found {
                let distance = cursor - match_position;
                let l = match_length - 3;
                let dd = distance as u16;
                let ll = l as u16;
                let code: u16 = 0x8000u16 | ((dd << 3) & 0x3ff8) | ll;
                assert(code == 0x8000 + dd * 8 + ll) by (bit_vector)
                    requires
                        code == 0x8000u16 | ((dd << 3) & 0x3ff8) | ll,
                        dd <= 2047,
                        ll <= 7,
                ;
                push_u16_be(encoded, code);
                cursor = cursor + match_length;
            } else {
                let byte = source[cursor];
                cursor = cursor + 1;
                if byte == 0x20 && cursor < n && 0x40 <= source[cursor] && source[cursor] <= 0x7f {
                    let next = source[cursor];
                    assert(next ^ 0x80 == next + 0x80) by (bit_vector)
                        requires
                            0x40 <= next <= 0x7f,
                    ;
                    encoded.push(next ^ 0x80);
                    cursor = cursor + 1;
                } else if byte == 0 || (byte > 8 && byte < 0x80) {
                    encoded.push(byte);
                } else {
                    let run_start = cursor - 1;
                    let mut literal: Vec<u8> = Vec::new();
                    literal.push(byte);
                    let mut literal_length: usize = 1;
                    let mut stop = false;
                    proof {
                        lemma_run_end(s, cursor as int, 1);
                    }
                    assert(literal@ =~= s.subrange(run_start as int, cursor as int));
                    while !stop && cursor < n && literal_length < 8
                        invariant
                            n == s.len(),
                            s == source@,
                            run_start < cursor <= n,
                            1 <= literal_length <= 8,
                            literal_length == cursor - run_start,
                            literal@ == s.subrange(run_start as int, cursor as int),
                            run_end(s, cursor as int, literal_length as int) == run_end(
                                s,
                                run_start + 1,
                                1,
                            ),
                            stop ==> (cursor < n && is_literal(s[cursor as int])),
                        decreases n - cursor + (if stop { 0int } else { 1int }),
                    {
                        let next = source[cursor];
                        if next == 0 || (next > 8 && next < 0x80) {
                            stop = true;
                        } else {
                            literal.push(next);
                            literal_length = literal_length + 1;
                            cursor = cursor + 1;
                            assert(literal@ =~= s.subrange(run_start as int, cursor as int));
                        }
                    }
                    assert(run_end(s, run_start + 1, 1) == cursor);
                    encoded.push(literal_length as u8);
                    push_bytes(encoded, literal.as_slice());
                }
            }
            proof {
                lemma_bound_grow(self.table@, self.generation, s, d, c0, cursor as int);
            }
        }
    }
}

impl Default for PalmDocCompressor {
    fn default() -> (c: Self)
        ensures
            c.wf(),
    {
        Self::new()
    }
}

// ---------------------------------------------------------------------------
// Decoding, and the round trip.

/// Append `length` bytes copied one by one from `distance` bytes back.
pub open spec fn copy_back(out: Seq<u8>, distance: int, length: int) -> Seq<u8>
    decreases length,
{
    if length <= 0 {
        out
    } else {
        copy_back(out.push(out[out.len() - distance]), distance, length - 1)
    }
}

/// PalmDOC decoding of `enc`, appended to `out`.
pub open spec fn decode_from(enc: Seq<u8>, out: Seq<u8>) -> Seq<u8>
    decreases enc.len(),
{
    if enc.len() == 0 {
        out
    } else {
        let b = enc[0];
        if 1 <= b <= 8 {
            if enc.len() < 1 + b {
                out
            } else {
                decode_from(enc.subrange(1 + b, enc.len() as int), out + enc.subrange(1, 1 + b))
            }
        } else if b < 0x80 {
            decode_from(enc.drop_first(), out.push(b))
        } else if b >= 0xc0 {
            decode_from(enc.drop_first(), out + seq![0x20u8, (b - 0x80) as u8])
        } else if enc.len() < 2 {
            out
        } else {
            let code = (b - 0x80) * 256 + enc[1];
            let distance = code / 8;
            let length = code % 8 + 3;
            if distance == 0 || distance > out.len() {
                out
            } else {
                decode_from(enc.subrange(2, enc.len() as int), copy_back(out, distance, length))
            }
        }
    }
}

/// PalmDOC decoding of a whole record.
pub open spec fn palmdoc_decode(enc: Seq<u8>) -> Seq<u8> {
    decode_from(enc, Seq::empty())
}

/// Every dictionary entry is an earlier occurrence of its key, ending by `c`.
pub open spec fn dict_ok(s: Seq<u8>, d: Map<Seq<u8>, int>, c: int) -> bool {
    forall|k: Seq<u8>|
        #[trigger] d.contains_key(k) ==> {
            &&& 0 <= d[k]
            &&& d[k] + k.len() <= c
            &&& s.subrange(d[k], d[k] + k.len()) == k
        }
}

proof fn lemma_copy_back(out: Seq<u8>, distance: int, length: int)
    requires
        0 <= length <= distance <= out.len(),
    ensures
        copy_back(out, distance, length) == out + out.subrange(
            out.len() - distance,
            out.len() - distance + length,
        ),
    decreases length,
{
    if length > 0 {
        let out2 = out.push(out[out.len() - distance]);
        lemma_copy_back(out2, distance, length - 1);
        assert(out2.subrange(out2.len() - distance, out2.len() - distance + length - 1)
            =~= out.subrange(out.len() - distance + 1, out.len() - distance + length));
        assert(out2 + out2.subrange(out2.len() - distance, out2.len() - distance + length - 1)
            =~= out + out.subrange(out.len() - distance, out.len() - distance + length));
    }
}

proof fn lemma_insert_keys_ok(s: Seq<u8>, c: int, d: Map<Seq<u8>, int>, len: int)
    requires
        0 <= c <= s.len(),
        dict_ok(s, d, c),
    ensures
        dict_ok(s, insert_keys(s, c, d, len), c),
    decreases 11 - len,
{
    if 3 <= len <= 10 {
        let d2 = if c >= len {
            d.insert(s.subrange(c - len, c), c - len)
        } else {
            d
        };
        assert(dict_ok(s, d2, c)) by {
            if c >= len {
                let k0 = s.subrange(c - len, c);
                assert forall|k: Seq<u8>| #[trigger] d2.contains_key(k) implies {
                    &&& 0 <= d2[k]
                    &&& d2[k] + k.len() <= c
                    &&& s.subrange(d2[k], d2[k] + k.len()) == k
                } by {
                    if k != k0 {
                        assert(d.contains_key(k));
                    }
                }
            }
        }
        lemma_insert_keys_ok(s, c, d2, len + 1);
    }
}

proof fn lemma_find_match_ok(s: Seq<u8>, c: int, d: Map<Seq<u8>, int>, len: int)
    requires
        0 <= c,
        c + len <= s.len(),
        dict_ok(s, d, c),
    ensures
        find_match(s, c, d, len) matches Some((p, l)) ==> {
            &&& 3 <= l <= len
            &&& 0 <= p
            &&& p + l <= c
            &&& c - p <= 2047
            &&& s.subrange(p, p + l) == s.subrange(c, c + l)
        },
    decreases len,
{
    if len >= 3 {
        let k = s.subrange(c, c + len);
        if !(d.contains_key(k) && c - d[k] <= 2047) {
            lemma_find_match_len(s, c, d, len - 1);
            lemma_find_match_ok(s, c, d, len - 1);
        }
    }
}

proof fn lemma_dict_grow(s: Seq<u8>, d: Map<Seq<u8>, int>, c: int, c2: int)
    requires
        dict_ok(s, d, c),
        c <= c2,
    ensures
        dict_ok(s, d, c2),
{
}

proof fn lemma_match_code(distance: int, length: int)
    requires
        3 <= length <= 10,
        1 <= distance <= 2047,
    ensures
        0x80 <= match_code(distance, length)[0] < 0xc0,
        match_code(distance, length).len() == 2,
        ((match_code(distance, length)[0] - 0x80) * 256 + match_code(distance, length)[1]) / 8
            == distance,
        ((match_code(distance, length)[0] - 0x80) * 256 + match_code(distance, length)[1]) % 8 + 3
            == length,
{
    let v = 0x8000 + distance * 8 + (length - 3);
    assert(0x8000 <= v < 0xc000);
    let w = v as u16;
    assert(w == v);
    let hi = w / 256;
    let lo = w % 256;
    assert(hi * 256 + lo == v) by (nonlinear_arith)
        requires
            hi == w / 256,
            lo == w % 256,
            w == v,
    ;
    assert((hi - 0x80) * 256 + lo == distance * 8 + (length - 3));
    assert((distance * 8 + (length - 3)) / 8 == distance) by (nonlinear_arith)
        requires
            0 <= length - 3 < 8,
    ;
    assert((distance * 8 + (length - 3)) % 8 == length - 3) by (nonlinear_arith)
        requires
            0 <= length - 3 < 8,
    ;
}

proof fn lemma_roundtrip_from(s: Seq<u8>, c: int, d: Map<Seq<u8>, int>)
    requires
        0 <= c <= s.len(),
        dict_ok(s, d, c),
    ensures
        decode_from(compress_from(s, c, d), s.subrange(0, c)) == s,
    decreases s.len() - c,
{
    if c >= s.len() {
        assert(s.subrange(0, c) =~= s);
    } else {
        let d1 = insert_keys(s, c, d, 3);
        lemma_insert_keys_ok(s, c, d, 3);
        let m = if c > 10 && s.len() - c > 10 {
            find_match(s, c, d1, 10)
        } else {
            None
        };
        let out = s.subrange(0, c);
        match m {
            Some((p, l)) => {
                lemma_find_match_ok(s, c, d1, 10);
                let rest = compress_from(s, c + l, d1);
                let enc = match_code(c - p, l) + rest;
                assert(compress_from(s, c, d) == enc);
                lemma_match_code(c - p, l);
                assert(enc[0] == match_code(c - p, l)[0]);
                assert(enc[1] == match_code(c - p, l)[1]);
                assert(enc.subrange(2, enc.len() as int) =~= rest);
                lemma_copy_back(out, c - p, l);
                assert(out.subrange(out.len() - (c - p), out.len() - (c - p) + l) =~= s.subrange(
                    p,
                    p + l,
                ));
                assert(s.subrange(p, p + l) == s.subrange(c, c + l));
                assert(out + s.subrange(c, c + l) =~= s.subrange(0, c + l));
                lemma_dict_grow(s, d1, c, c + l);
                lemma_roundtrip_from(s, c + l, d1);
            },
            None => {
                let b = s[c];
                if b == 0x20 && c + 1 < s.len() && 0x40 <= s[c + 1] && s[c + 1] <= 0x7f {
                    let rest = compress_from(s, c + 2, d1);
                    let enc = seq![(s[c + 1] + 0x80) as u8] + rest;
                    assert(enc.drop_first() =~= rest);
                    assert(out + seq![0x20u8, ((s[c + 1] + 0x80) as u8 - 0x80) as u8] =~= s.subrange(
                        0,
                        c + 2,
                    ));
                    lemma_dict_grow(s, d1, c, c + 2);
                    lemma_roundtrip_from(s, c + 2, d1);
                } else if is_literal(b) {
                    let rest = compress_from(s, c + 1, d1);
                    let enc = seq![b] + rest;
                    assert(enc.drop_first() =~= rest);
                    assert(out.push(b) =~= s.subrange(0, c + 1));
                    lemma_dict_grow(s, d1, c, c + 1);
                    lemma_roundtrip_from(s, c + 1, d1);
                } else {
                    lemma_run_end(s, c + 1, 1);
                    let e = run_end(s, c + 1, 1);
                    let rest = compress_from(s, e, d1);
                    let enc = seq![(e - c) as u8] + s.subrange(c, e) + rest;
                    assert(enc[0] == (e - c) as u8);
                    assert(enc.subrange(1, 1 + (e - c)) =~= s.subrange(c, e));
                    assert(enc.subrange(1 + (e - c), enc.len() as int) =~= rest);
                    assert(out + s.subrange(c, e) =~= s.subrange(0, e));
                    lemma_dict_grow(s, d1, c, e);
                    lemma_roundtrip_from(s, e, d1);
                }
            },
        }
    }
}

/// Decoding a compressed record gives the record back.
pub proof fn lemma_palmdoc_roundtrip(s: Seq<u8>)
    ensures
        palmdoc_decode(palmdoc_compress(s)) == s,
{
    assert(s.subrange(0, 0) =~= Seq::<u8>::empty());
    lemma_roundtrip_from(s, 0, Map::empty());
}

} // verus!
