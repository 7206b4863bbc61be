//! Fixed-size decoded text records and their trailing-data entries.

use vstd::prelude::*;
use vstd::utf8::valid_utf8;
use crate::kf8::compress::{PalmDocCompressor, palmdoc_compress, MAX_COMPRESS_SOURCE};
use crate::kf8::vwi::{
    backward_vwi, backward_vwi_length, encode_backward_vwi, vwi_groups, lemma_vwi_groups,
};
use crate::kf8::wire::{concat, lemma_concat_take_step, push_bytes};

use crate::strings::utf8_str;

verus! {

/// Decoded size of every text record but the last.
pub const PALMDOC_RECORD_SIZE: usize = 4096;

// ---------------------------------------------------------------------------
// Record boundaries.

/// The byte strings of the chunks.
pub open spec fn chunk_views(chunks: Seq<&[u8]>) -> Seq<Seq<u8>> {
    Seq::new(chunks.len(), |i: int| chunks[i]@)
}

/// Bytes of record `j` of the stream `total`.
pub open spec fn record_block(total: Seq<u8>, j: int) -> Seq<u8> {
    total.subrange(
        4096 * j,
        if 4096 * (j + 1) < total.len() {
            4096 * (j + 1)
        } else {
            total.len() as int
        },
    )
}

/// Number of records of a stream of `n` bytes.
pub open spec fn record_count(n: nat) -> nat {
    ((n + 4095) / 4096) as nat
}

// ---------------------------------------------------------------------------
// UTF-8 characters that straddle a record boundary.

/// Sequence length announced by a UTF-8 leading byte, 0 for a continuation
/// or invalid byte.
pub open spec fn utf8_lead_len(b: u8) -> int {
    if b <= 0x7f {
        1
    } else if 0xc0 <= b <= 0xdf {
        2
    } else if 0xe0 <= b <= 0xef {
        3
    } else if 0xf0 <= b <= 0xf7 {
        4
    } else {
        0
    }
}

/// Scan `comb` from `start` for a character that begins before `boundary`,
/// ends after it and is valid UTF-8; its bytes after `boundary`.
pub open spec fn overlap_scan(comb: Seq<u8>, boundary: int, start: int) -> Seq<u8>
    decreases boundary - start,
{
    if start < 0 || start >= boundary {
        Seq::empty()
    } else {
        let end = start + utf8_lead_len(comb[start]);
        if utf8_lead_len(comb[start]) > 0 && boundary < end && end <= comb.len() && valid_utf8(
            comb.subrange(start, end),
        ) {
            comb.subrange(boundary, end)
        } else {
            overlap_scan(comb, boundary, start + 1)
        }
    }
}

/// The last three bytes of `prev` (or all of it).
pub open spec fn tail3(prev: Seq<u8>) -> Seq<u8> {
    prev.subrange(if prev.len() >= 3 { prev.len() - 3 } else { 0 }, prev.len() as int)
}

/// The first three bytes of `next` (or all of it).
pub open spec fn head3(next: Seq<u8>) -> Seq<u8> {
    next.subrange(0, if next.len() >= 3 { 3 } else { next.len() as int })
}

/// The bytes of the character that `prev` begins and `next` completes.
pub open spec fn utf8_overlap(prev: Seq<u8>, next: Seq<u8>) -> Seq<u8> {
    overlap_scan(tail3(prev) + head3(next), tail3(prev).len() as int, 0)
}

proof fn lemma_overlap_scan_len(comb: Seq<u8>, boundary: int, start: int)
    requires
        0 <= boundary <= comb.len(),
    ensures
        overlap_scan(comb, boundary, start).len() <= comb.len() - boundary,
    decreases boundary - start,
{
    if 0 <= start < boundary {
        lemma_overlap_scan_len(comb, boundary, start + 1);
    }
}

/// The straddling part of a character is at most three bytes.
pub proof fn lemma_utf8_overlap_len(prev: Seq<u8>, next: Seq<u8>)
    ensures
        utf8_overlap(prev, next).len() <= 3,
{
    lemma_overlap_scan_len(tail3(prev) + head3(next), tail3(prev).len() as int, 0);
}

/// Whether `bytes` is valid UTF-8.
fn is_utf8(bytes: &[u8]) -> (r: bool)
    ensures
        r == valid_utf8(bytes@),
{
    utf8_str(bytes).is_some()
}

/// Sequence length announced by a UTF-8 leading byte.
pub fn utf8_leading_byte_length(byte: u8) -> (r: Option<usize>)
    ensures
        r == (if utf8_lead_len(byte) > 0 {
            Some(utf8_lead_len(byte) as usize)
        } else {
            None::<usize>
        }),
{
    if byte <= 0x7f {
        Some(1)
    } else if 0xc0 <= byte && byte <= 0xdf {
        Some(2)
    } else if 0xe0 <= byte && byte <= 0xef {
        Some(3)
    } else if 0xf0 <= byte && byte <= 0xf7 {
        Some(4)
    } else {
        None
    }
}

/// Append `src[from..to]` to `out`.
fn push_range(out: &mut Vec<u8>, src: &[u8], from: usize, to: usize)
    requires
        from <= to <= src@.len(),
    ensures
        final(out)@ == old(out)@ + src@.subrange(from as int, to as int),
{
    let ghost start = out@;
    let mut i: usize = from;
    while i < to
        invariant
            from <= i <= to,
            to <= src@.len(),
            out@ == start + src@.subrange(from as int, i as int),
        decreases to - i,
    {
        out.push(src[i]);
        i = i + 1;
        assert(out@ =~= start + src@.subrange(from as int, i as int));
    }
}

/// The bytes of the character that `previous` begins and `next` completes
/// (empty when no character straddles the boundary).
pub fn utf8_overlap_between(previous: &[u8], next: &[u8]) -> (r: Vec<u8>)
    ensures
        r@ == utf8_overlap(previous@, next@),
        r@.len() <= 3,
{
    proof {
        lemma_utf8_overlap_len(previous@, next@);
    }
    let previous_start = if previous.len() >= 3 { previous.len() - 3 } else { 0 };
    let next_end = if next.len() >= 3 { 3 } else { next.len() };
    let mut combined: Vec<u8> = Vec::new();
    push_range(&mut combined, previous, previous_start, previous.len());
    let boundary = combined.len();
    push_range(&mut combined, next, 0, next_end);
    let ghost comb = tail3(previous@) + head3(next@);
    assert(combined@ =~= comb);
    let mut start: usize = 0;
    while start < boundary
        invariant
            start <= boundary,
            boundary == tail3(previous@).len(),
            combined@ == comb,
            boundary <= comb.len(),
            comb.len() <= 6,
            overlap_scan(comb, boundary as int, start as int) == utf8_overlap(previous@, next@),
        decreases boundary - start,
    {
        match utf8_leading_byte_length(combined[start]) {
            Some(length) => {
                let end = start + length;
                if boundary < end && end <= combined.len() {
                    let mut window: Vec<u8> = Vec::new();
                    push_range(&mut window, combined.as_slice(), start, end);
                    if is_utf8(window.as_slice()) {
                        let mut r: Vec<u8> = Vec::new();
                        push_range(&mut r, combined.as_slice(), boundary, end);
                        return r;
                    }
                }
            },
            None => {},
        }
        start = start + 1;
    }
    Vec::new()
}

// ---------------------------------------------------------------------------
// The trailing-entry size.

/// `x` is the size of a trailing entry of `n` payload bytes: the payload plus
/// the backward VWI of `x` itself.
pub open spec fn trailing_fixed(n: nat, x: nat) -> bool {
    x == n + vwi_groups(x).len()
}

/// `x` is the smallest such size.
pub open spec fn least_trailing(n: nat, x: nat) -> bool {
    &&& n < x
    &&& trailing_fixed(n, x)
    &&& forall|y: nat| n < y < x ==> !#[trigger] trailing_fixed(n, y)
}

/// Size of the trailing entry that holds `n` payload bytes and its own size.
pub open spec fn trailing_size(n: nat) -> nat {
    choose|x: nat| least_trailing(n, x)
}

proof fn lemma_vwi_len_mono(a: nat, b: nat)
    requires
        a <= b,
    ensures
        vwi_groups(a).len() <= vwi_groups(b).len(),
    decreases b,
{
    lemma_vwi_groups(a);
    lemma_vwi_groups(b);
    if a >= 128 {
        lemma_vwi_len_mono(a / 128, b / 128);
    }
}

/// Size of the trailing entry that holds `tbs_length` bytes and its own
/// backward-VWI size.
pub fn trailing_entry_size(tbs_length: usize) -> (r: usize)
    requires
        tbs_length <= usize::MAX - 16,
    ensures
        r == trailing_size(tbs_length as nat),
        r <= tbs_length + 10,
{
    let mut size = tbs_length + 1;
    loop
        invariant
            tbs_length <= usize::MAX - 16,
            tbs_length < size <= tbs_length + 10,
            size <= tbs_length + vwi_groups(size as nat).len(),
            forall|y: nat| tbs_length < y < size ==> !#[trigger] trailing_fixed(tbs_length as nat, y),
        decreases tbs_length + 11 - size,
    {
        let next = tbs_length + backward_vwi_length(size);
        if next == size {
            proof {
                assert(least_trailing(tbs_length as nat, size as nat));
                let x = trailing_size(tbs_length as nat);
                assert(least_trailing(tbs_length as nat, x));
                if x < size {
                } else if x > size {
                    assert(!trailing_fixed(tbs_length as nat, size as nat));
                }
            }
            return size;
        }
        proof {
            assert forall|y: nat| tbs_length < y < next implies !#[trigger] trailing_fixed(
                tbs_length as nat,
                y,
            ) by {
                if y >= size {
                    lemma_vwi_len_mono(size as nat, y);
                }
            }
            lemma_vwi_len_mono(size as nat, next as nat);
        }
        size = next;
    }
}

// ---------------------------------------------------------------------------
// Text records.

/// One decoded text record and the bytes of a character that continues into
/// the next record.
#[derive(Debug)]
pub struct TextRecord {
    pub data: Vec<u8>,
    pub multibyte_overlap: Vec<u8>,
}

/// The prefix `consumed` of `total` fixes the records it covers completely.
proof fn lemma_block_of_prefix(total: Seq<u8>, consumed: Seq<u8>, j: int)
    requires
        consumed.len() <= total.len(),
        consumed == total.subrange(0, consumed.len() as int),
        0 <= j,
        4096 * (j + 1) <= consumed.len(),
    ensures
        record_block(total, j) == consumed.subrange(4096 * j, 4096 * (j + 1)),
{
    assert(record_block(total, j) =~= consumed.subrange(4096 * j, 4096 * (j + 1)));
}

/// The chunks read so far are a prefix of the whole stream.
proof fn lemma_concat_prefix(parts: Seq<Seq<u8>>, i: int)
    requires
        0 <= i <= parts.len(),
    ensures
        concat(parts.take(i)).len() <= concat(parts).len(),
        concat(parts.take(i)) == concat(parts).subrange(0, concat(parts.take(i)).len() as int),
    decreases parts.len() - i,
{
    if i == parts.len() {
        assert(parts.take(i) =~= parts);
    } else {
        lemma_concat_take_step(parts, i);
        lemma_concat_prefix(parts, i + 1);
        let a = concat(parts.take(i));
        let b = concat(parts.take(i + 1));
        assert(a =~= b.subrange(0, a.len() as int));
    }
}

impl TextRecord {
    /// Bytes of the character that continues into the next record.
    pub open spec fn overlap(&self) -> Seq<u8> {
        self.multibyte_overlap@
    }

    /// The decoded bytes of the record: its public `data`.
    pub open spec fn payload(&self) -> Seq<u8> {
        self.data@
    }

    /// Split one continuous stream, given as consecutive chunks, at fixed
    /// decoded 4096-byte boundaries. The boundary is global across chunks;
    /// every record but the last is full, and each record carries the bytes of
    /// a UTF-8 character that the next record completes.
    pub fn split_chunks(chunks: &[&[u8]]) -> (records: Vec<TextRecord>)
        requires
            concat(chunk_views(chunks@)).len() <= usize::MAX,
        ensures
            records@.len() == record_count(concat(chunk_views(chunks@)).len()),
            forall|j: int|
                0 <= j < records@.len() ==> #[trigger] records@[j].payload() == record_block(
                    concat(chunk_views(chunks@)),
                    j,
                ),
            forall|j: int|
                0 <= j < records@.len() - 1 ==> #[trigger] records@[j].overlap() == utf8_overlap(
                    records@[j].payload(),
                    records@[j + 1].payload(),
                ),
            records@.len() > 0 ==> records@.last().overlap() == Seq::<u8>::empty(),
    {
        let ghost parts = chunk_views(chunks@);
        let ghost total = concat(parts);
        let mut records: Vec<TextRecord> = Vec::new();
        let mut pending: Option<Vec<u8>> = None;
        let mut current: Vec<u8> = Vec::new();
        let mut done: usize = 0;
        let mut ci: usize = 0;
        assert(parts.take(0) =~= Seq::<Seq<u8>>::empty());
        while ci < chunks.len()
            invariant
                parts == chunk_views(chunks@),
                total == concat(parts),
                total.len() <= usize::MAX,
                ci <= chunks@.len(),
                done == concat(parts.take(ci as int)).len() / 4096,
                current@ == concat(parts.take(ci as int)).subrange(
                    4096 * done,
                    concat(parts.take(ci as int)).len() as int,
                ),
                pending is Some <==> done > 0,
                pending matches Some(p) ==> p@ == record_block(total, done - 1),
                records@.len() == if done > 0 {
                    done - 1
                } else {
                    0
                },
                forall|j: int|
                    0 <= j < records@.len() ==> (#[trigger] records@[j]).data@ == record_block(total, j),
                forall|j: int|
                    0 <= j < records@.len() ==> (#[trigger] records@[j]).overlap() == utf8_overlap(
                        record_block(total, j),
                        record_block(total, j + 1),
                    ),
            decreases chunks@.len() - ci,
        {
            let chunk: &[u8] = chunks[ci];
            let ghost before = concat(parts.take(ci as int));
            proof {
                lemma_concat_take_step(parts, ci as int);
                lemma_concat_prefix(parts, ci as int + 1);
                assert(parts[ci as int] == chunk@);
            }
            let ghost after = concat(parts.take(ci + 1));
            assert(after == before + chunk@);
            let mut cursor: usize = 0;
            while cursor < chunk.len()
                invariant
                    parts == chunk_views(chunks@),
                    total == concat(parts),
                    total.len() <= usize::MAX,
                    after == before + chunk@,
                    after == total.subrange(0, after.len() as int),
                    after.len() <= total.len(),
                    cursor <= chunk@.len(),
                    done == (before.len() + cursor) / 4096,
                    current@ == after.subrange(4096 * done, before.len() + cursor),
                    pending is Some <==> done > 0,
                    pending matches Some(p) ==> p@ == record_block(total, done - 1),
                    records@.len() == if done > 0 {
                        done - 1
                    } else {
                        0
                    },
                    forall|j: int|
                        0 <= j < records@.len() ==> (#[trigger] records@[j]).data@ == record_block(total, j),
                    forall|j: int|
                        0 <= j < records@.len() ==> (#[trigger] records@[j]).overlap() == utf8_overlap(
                            record_block(total, j),
                            record_block(total, j + 1),
                        ),
                decreases chunk@.len() - cursor,
            {
                let remaining = PALMDOC_RECORD_SIZE - current.len();
                let available = chunk.len() - cursor;
                let take = if remaining < available { remaining } else { available };
                push_range(&mut current, chunk, cursor, cursor + take);
                assert(current@ =~= after.subrange(4096 * done, before.len() + cursor + take));
                cursor = cursor + take;
                if current.len() == PALMDOC_RECORD_SIZE {
                    proof {
                        assert(after.subrange(0, before.len() + cursor) =~= total.subrange(0, before.len() + cursor));
                        lemma_block_of_prefix(total, after.subrange(0, before.len() + cursor), done as int);
                        assert(current@ =~= record_block(total, done as int));
                    }
                    let full = current;
                    current = Vec::new();
                    match pending.take() {
                        Some(previous) => {
                            let overlap = utf8_overlap_between(previous.as_slice(), full.as_slice());
                            records.push(TextRecord { data: previous, multibyte_overlap: overlap });
                        },
                        None => {},
                    }
                    pending = Some(full);
                    done = done + 1;
                    assert(current@ =~= after.subrange(4096 * done, before.len() + cursor));
                }
            }
            ci = ci + 1;
        }
        proof {
            assert(parts.take(ci as int) =~= parts);
        }
        if current.len() > 0 {
            proof {
                assert(current@ =~= record_block(total, done as int));
            }
            match pending.take() {
                Some(previous) => {
                    let overlap = utf8_overlap_between(previous.as_slice(), current.as_slice());
                    records.push(TextRecord { data: previous, multibyte_overlap: overlap });
                },
                None => {},
            }
            records.push(TextRecord { data: current, multibyte_overlap: Vec::new() });
        } else {
            match pending.take() {
                Some(previous) => {
                    records.push(TextRecord { data: previous, multibyte_overlap: Vec::new() });
                },
                None => {},
            }
        }
        records
    }

    /// Append the KF8 trailing-data entries after the (optionally compressed)
    /// payload: the UTF-8 overlap bytes and their marker, then the indexing
    /// TBS bytes and the backward size of that entry.
    pub fn into_trailing_data_with_compression(
        self,
        indexing_tbs: &[u8],
        compressor: Option<&mut PalmDocCompressor>,
    ) -> (r: Vec<u8>)
        requires
            self.overlap().len() <= 3,
            indexing_tbs@.len() <= usize::MAX - 16,
            compressor matches Some(c) ==> c.wf() && self.payload().len() <= MAX_COMPRESS_SOURCE,
        ensures
            r@ == (if compressor is Some {
                palmdoc_compress(self.payload())
            } else {
                self.payload()
            }) + self.overlap() + seq![self.overlap().len() as u8] + indexing_tbs@ + backward_vwi(
                trailing_size(indexing_tbs@.len()),
            ),
            compressor matches Some(c) ==> final(c).wf(),
    {
        let TextRecord { data, multibyte_overlap } = self;
        let mut encoded = match compressor {
            Some(c) => {
                let mut out: Vec<u8> = Vec::new();
                c.compress(data.as_slice(), &mut out);
                out
            },
            None => data,
        };
        push_bytes(&mut encoded, multibyte_overlap.as_slice());
        encoded.push(multibyte_overlap.len() as u8);
        push_bytes(&mut encoded, indexing_tbs);
        let trailing_length = trailing_entry_size(indexing_tbs.len());
        let size_bytes = encode_backward_vwi(trailing_length);
        push_bytes(&mut encoded, size_bytes.as_slice());
        encoded
    }
}

// ---------------------------------------------------------------------------
// The record stream covers the text.

/// The first `k` records of `total`.
pub open spec fn blocks(total: Seq<u8>, k: nat) -> Seq<Seq<u8>> {
    Seq::new(k, |j: int| record_block(total, j))
}

proof fn lemma_blocks_prefix(total: Seq<u8>, k: nat)
    requires
        k <= record_count(total.len()),
    ensures
        concat(blocks(total, k)) == total.subrange(
            0,
            if 4096 * k < total.len() { (4096 * k) as int } else { total.len() as int },
        ),
    decreases k,
{
    if k == 0 {
        assert(blocks(total, 0) =~= Seq::<Seq<u8>>::empty());
        assert(total.subrange(0, 0) =~= Seq::<u8>::empty());
    } else {
        let k1 = (k - 1) as nat;
        lemma_blocks_prefix(total, k1);
        assert(blocks(total, k).drop_last() =~= blocks(total, k1));
        assert(4096 * k1 < total.len());
        assert(concat(blocks(total, k)) =~= total.subrange(
            0,
            if 4096 * k < total.len() { (4096 * k) as int } else { total.len() as int },
        ));
    }
}

/// The records of a stream, in order, concatenate to the stream; every
/// record but the last holds exactly 4096 bytes and the last one at least one.
pub proof fn lemma_records_cover(total: Seq<u8>)
    ensures
        concat(blocks(total, record_count(total.len()))) == total,
        forall|j: int|
            0 <= j < record_count(total.len()) - 1 ==> (#[trigger] record_block(total, j)).len()
                == 4096,
        record_count(total.len()) > 0 ==> 1 <= record_block(total, record_count(total.len()) - 1).len()
            <= 4096,
{
    let n = record_count(total.len());
    lemma_blocks_prefix(total, n);
    assert(4096 * n >= total.len());
    assert(total.subrange(0, total.len() as int) =~= total);
}

/// The carried-over bytes of record `j` of the stream: those of a UTF-8
/// character that the next record completes, none for the last record.
pub open spec fn record_overlap(total: Seq<u8>, j: int) -> Seq<u8> {
    if j < record_count(total.len()) - 1 {
        utf8_overlap(record_block(total, j), record_block(total, j + 1))
    } else {
        Seq::empty()
    }
}

/// What `into_trailing_data_with_compression` writes, without compression,
/// for record `j` of the stream with the indexing TBS `tbs`.
pub open spec fn record_trailing(total: Seq<u8>, j: int, tbs: Seq<u8>) -> Seq<u8> {
    let ov = record_overlap(total, j);
    record_block(total, j) + ov + seq![ov.len() as u8] + tbs + backward_vwi(trailing_size(tbs.len()))
}

/// Each record `split_chunks` makes of the stream, written out with its
/// trailing entries and no compression, is `record_trailing` of the stream.
pub proof fn lemma_split_record_trailing(total: Seq<u8>, records: Seq<TextRecord>, j: int, tbs: Seq<u8>)
    requires
        records.len() == record_count(total.len()),
        forall|i: int| 0 <= i < records.len() ==> #[trigger] records[i].payload() == record_block(total, i),
        forall|i: int| 0 <= i < records.len() - 1 ==> #[trigger] records[i].overlap() == utf8_overlap(
            records[i].payload(),
            records[i + 1].payload(),
        ),
        records.len() > 0 ==> records.last().overlap() == Seq::<u8>::empty(),
        0 <= j < records.len(),
    ensures
        records[j].payload() + records[j].overlap() + seq![records[j].overlap().len() as u8] + tbs + backward_vwi(
            trailing_size(tbs.len()),
        ) == record_trailing(total, j, tbs),
{
    if j < records.len() - 1 {
        assert(records[j + 1].payload() == record_block(total, j + 1));
    }
}

/// The 4096-byte boundary is global: chunkings with one concatenation split
/// into the same number of records, with the same bytes, the same bytes
/// carried over to the next record and the same records written out with
/// any indexing TBS, however the stream was cut.
pub proof fn lemma_chunking_invisible(a: Seq<Seq<u8>>, b: Seq<Seq<u8>>)
    requires
        concat(a) == concat(b),
    ensures
        record_count(concat(a).len()) == record_count(concat(b).len()),
        forall|j: int| 0 <= j < record_count(concat(a).len()) ==> #[trigger] record_block(concat(a), j)
            == record_block(concat(b), j),
        forall|j: int| 0 <= j < record_count(concat(a).len()) - 1 ==> #[trigger] utf8_overlap(
            record_block(concat(a), j),
            record_block(concat(a), j + 1),
        ) == utf8_overlap(record_block(concat(b), j), record_block(concat(b), j + 1)),
        forall|j: int, tbs: Seq<u8>| #[trigger] record_trailing(concat(a), j, tbs) == record_trailing(concat(b), j, tbs),
{
}


// ---------------------------------------------------------------------------
// Characters that straddle a record boundary.

/// Each byte of valid UTF-8 is a continuation byte or the leading byte of a
/// character that ends within the bytes, `utf8_lead_len` bytes long.
proof fn lemma_valid_utf8_byte(b: Seq<u8>, i: int)
    requires
        vstd::utf8::valid_utf8(b),
        0 <= i < b.len(),
    ensures
        vstd::utf8::is_continuation_byte(b[i]) || (utf8_lead_len(b[i]) > 0 && i + utf8_lead_len(b[i])
            <= b.len()),
    decreases b.len(),
{
    let l = vstd::utf8::length_of_first_scalar(b);
    if i >= l {
        let rest = vstd::utf8::pop_first_scalar(b);
        assert(rest[i - l] == b[i]);
        lemma_valid_utf8_byte(rest, i - l);
    }
}

proof fn lemma_scan_passes_prefix(comb: Seq<u8>, boundary: int, s0: int, t: int, ap: Seq<u8>, base: int)
    requires
        0 <= t <= s0 <= boundary <= comb.len(),
        vstd::utf8::valid_utf8(ap),
        0 <= base,
        base + s0 <= ap.len(),
        forall|x: int| 0 <= x < s0 ==> #[trigger] comb[x] == ap[base + x],
        base + s0 == ap.len(),
    ensures
        overlap_scan(comb, boundary, t) == overlap_scan(comb, boundary, s0),
    decreases s0 - t,
{
    if t < s0 {
        lemma_valid_utf8_byte(ap, base + t);
        assert(comb[t] == ap[base + t]);
        lemma_scan_passes_prefix(comb, boundary, s0, t + 1, ap, base);
    }
}

/// A character that straddles a record boundary is carried whole: when
/// the record ends with valid UTF-8 (`p`, possibly the end of a longer
/// valid stream `a + p`) followed by the first `k` bytes of a character's
/// encoding, and the next record goes on with the rest of that encoding,
/// the record's overlap is exactly the rest of the character's bytes, so
/// that payload and overlap end on a character boundary.
pub proof fn lemma_straddling_character_overlap(a: Seq<u8>, p: Seq<u8>, c: char, k: int, q: Seq<u8>)
    requires
        vstd::utf8::valid_utf8(a + p),
        0 < k < vstd::utf8::encode_utf8(seq![c]).len(),
    ensures
        ({
            let e = vstd::utf8::encode_utf8(seq![c]);
            utf8_overlap(p + e.subrange(0, k), e.subrange(k, e.len() as int) + q) == e.subrange(
                k,
                e.len() as int,
            )
        }),
{
    let e = vstd::utf8::encode_utf8(seq![c]);
    vstd::utf8::encode_utf8_first_scalar(seq![c]);
    vstd::utf8::encode_utf8_valid_utf8(seq![c]);
    assert(seq![c].drop_first() =~= Seq::<char>::empty());
    assert(seq![c][0] == c);
    assert(vstd::utf8::encode_utf8(Seq::<char>::empty()) =~= Seq::<u8>::empty());
    assert(e == vstd::utf8::encode_scalar(c as u32) + vstd::utf8::encode_utf8(seq![c].drop_first()));
    assert(e =~= vstd::utf8::encode_scalar(c as u32));
    let len = e.len() as int;
    assert(utf8_lead_len(e[0]) == len);
    assert(len <= 4);
    let prev = p + e.subrange(0, k);
    let next = e.subrange(k, len) + q;
    let t3 = tail3(prev);
    let h3 = head3(next);
    let comb = t3 + h3;
    let boundary = t3.len() as int;
    let off = prev.len() - t3.len();
    let s0 = boundary - k;
    assert(0 <= s0);
    assert(off + s0 == p.len());
    assert(h3.len() >= len - k);
    assert(comb.subrange(s0, s0 + len) =~= e) by {
        assert forall|x: int| 0 <= x < len implies #[trigger] comb.subrange(s0, s0 + len)[x] == e[x] by {
            if x < k {
                assert(comb[s0 + x] == t3[s0 + x]);
                assert(t3[s0 + x] == prev[off + s0 + x]);
                assert(prev[p.len() + x] == e[x]);
            } else {
                assert(comb[s0 + x] == h3[x - k]);
                assert(h3[x - k] == next[x - k]);
            }
        }
    }
    assert forall|x: int| 0 <= x < s0 implies #[trigger] comb[x] == (a + p)[a.len() + off + x] by {
        assert(comb[x] == t3[x]);
        assert(t3[x] == prev[off + x]);
        assert(prev[off + x] == p[off + x]);
    }
    lemma_scan_passes_prefix(comb, boundary, s0, 0, a + p, a.len() + off);
    assert(comb[s0] == e[0]);
    assert(comb.subrange(boundary, s0 + len) =~= e.subrange(k, len));
}

} // verus!
