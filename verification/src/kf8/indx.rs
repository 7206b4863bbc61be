//! KF8 INDX main/detail record pairs and CTOC string records.

use vstd::prelude::*;
use vstd::std_specs::bits::u8_trailing_zeros;
use crate::error::{Error, output_error};
use crate::kf8::wire::{lemma_concat_take_step, lemma_concat_take_len, be16, be32, concat, zeros, pad4, set_word, tag_indx, tag_tagx, tag_idxt,
    push_bytes, push_tag, push_u16_be, push_u32_be, grow_zero, align_zero, set_u32_be_at};
use crate::kf8::vwi::{vwi, encode_vwi};

verus! {

/// Fixed length of an INDX header before its payload.
pub const INDEX_HEADER_LEN: usize = 0xc0;

/// One index entry: its key text and its tag values.
#[derive(Debug, Clone)]
pub struct RawIndexEntry {
    /// The entry key (at most 255 bytes).
    pub text: Vec<u8>,
    /// `(tag, values)` pairs carried by the entry.
    pub tags: Vec<(u8, Vec<u32>)>,
}

/// The mathematical view of an index entry: its text and `(tag, values)` groups.
pub type RawEntryView = (Seq<u8>, Seq<(u8, Seq<u32>)>);

/// The view of one `(tag, values)` group.
pub open spec fn group_view(t: (u8, Vec<u32>)) -> (u8, Seq<u32>) {
    (t.0, t.1@)
}

/// The view of an index entry.
pub open spec fn raw_view(e: RawIndexEntry) -> RawEntryView {
    (e.text@, e.tags@.map_values(|t: (u8, Vec<u32>)| group_view(t)))
}

/// The views of index entries.
pub open spec fn raw_views(es: Seq<RawIndexEntry>) -> Seq<RawEntryView> {
    es.map_values(|e: RawIndexEntry| raw_view(e))
}

/// A TAGX descriptor: tag number, values per occurrence, and control-byte mask.
pub type TagDefinition = (u8, u8, u8);

/// A main INDX record and its detail records.
pub type EncodedIndex = (Vec<u8>, Vec<Vec<u8>>);

/// A main INDX record, its detail records, and its CTOC records.
pub type EncodedIndexWithCtoc = (Vec<u8>, Vec<Vec<u8>>, Vec<Vec<u8>>);

/// The detail record holding entries `first_entry .. first_entry + entry_count`.
#[derive(Debug, Clone)]
pub struct DetailRouting {
    /// Index of the first entry in this record.
    pub first_entry: usize,
    /// Number of entries in this record.
    pub entry_count: usize,
    /// The encoded detail record.
    pub bytes: Vec<u8>,
}

/// The schema an index is encoded for; it selects the main-record row label.
#[derive(Debug, Clone, Copy, PartialEq, Eq)]
pub enum IndexKind {
    /// FRAG index.
    Fragment,
    /// SKEL index.
    Skeleton,
    /// NCX index.
    Ncx,
    /// Guide index.
    Guide,
}

// ---------------------------------------------------------------------------
// Specification

/// Number of set bits in `m`.
pub open spec fn popcount(m: u8) -> nat
    decreases m,
{
    if m == 0 { 0 } else { (m % 2) as nat + popcount(m / 2) }
}

/// The mask shifted down to its lowest set bit.
pub open spec fn normalized_mask(m: u8) -> u8 {
    m >> u8_trailing_zeros(m)
}

/// The accumulated masks of the first `i` tag definitions.
pub open spec fn masks_upto(tags: Seq<TagDefinition>, i: int) -> u8
    decreases i,
{
    if i <= 0 { 0 } else { masks_upto(tags, i - 1) | tags[i - 1].2 }
}

/// Tag definition `i` is acceptable given the definitions before it.
pub open spec fn tag_ok(tags: Seq<TagDefinition>, i: int) -> bool {
    let (tag, values_per_entry, mask) = tags[i];
    let n = normalized_mask(mask) as u16;
    &&& forall|j: int| 0 <= j < i ==> tags[j].0 != tag
    &&& values_per_entry != 0
    &&& mask != 0
    &&& popcount(mask) <= 2
    &&& n & ((n + 1) as u16) == 0
    &&& masks_upto(tags, i) & mask == 0
    &&& ((popcount(mask) == 1 && values_per_entry != 1) || i < 8)
}

/// Every tag definition is acceptable: unique tags, non-zero value counts,
/// unique contiguous one- or two-bit masks.
pub open spec fn tags_valid(tags: Seq<TagDefinition>) -> bool {
    forall|i: int| 0 <= i < tags.len() ==> tag_ok(tags, i)
}

/// Index of the first definition of `tag` at or after `i`, or `-1`.
pub open spec fn find_def_from(tags: Seq<TagDefinition>, tag: u8, i: int) -> int
    decreases tags.len() - i,
{
    if i < 0 || i >= tags.len() { -1 } else if tags[i].0 == tag { i } else { find_def_from(tags, tag, i + 1) }
}

/// Index of the first value group for `tag` at or after `k`, or `-1`.
pub open spec fn find_values_from(tags: Seq<(u8, Seq<u32>)>, tag: u8, k: int) -> int
    decreases tags.len() - k,
{
    if k < 0 || k >= tags.len() { -1 } else if tags[k].0 == tag { k } else { find_values_from(tags, tag, k + 1) }
}

/// One `(tag, values)` group of an entry agrees with its definition.
pub open spec fn value_group_ok(tags: Seq<TagDefinition>, group: (u8, Seq<u32>)) -> bool {
    let d = find_def_from(tags, group.0, 0);
    &&& d >= 0
    &&& {
        let (_, values_per_entry, mask) = tags[d];
        let n = group.1.len();
        let occurrences = n / (values_per_entry as nat);
        &&& n != 0
        &&& n % (values_per_entry as nat) == 0
        &&& (popcount(mask) == 1 ==> occurrences == 1)
        &&& (popcount(mask) > 1 ==> occurrences < normalized_mask(mask))
    }
}

/// An entry's value groups all agree with their definitions, and no defined
/// tag occurs twice.
pub open spec fn entry_ok(tags: Seq<TagDefinition>, e: RawEntryView) -> bool {
    &&& forall|k: int| 0 <= k < e.1.len() ==> value_group_ok(tags, #[trigger] e.1[k])
    &&& forall|j: int, k1: int, k2: int|
        #![trigger tags[j], e.1[k1], e.1[k2]]
        0 <= j < tags.len() && 0 <= k1 < k2 < e.1.len() ==> !(e.1[k1].0 == tags[j].0
            && e.1[k2].0 == tags[j].0)
}

/// Every entry is acceptable under `tags`.
pub open spec fn entries_valid(entries: Seq<RawEntryView>, tags: Seq<TagDefinition>) -> bool {
    forall|i: int| 0 <= i < entries.len() ==> entry_ok(tags, #[trigger] entries[i])
}

/// The index kind selected by the tag schema.
pub open spec fn index_kind_spec(tags: Seq<TagDefinition>, nctoc: u32) -> IndexKind {
    if tags =~= seq![(2u8, 1u8, 1u8), (3u8, 1u8, 2u8), (4u8, 1u8, 4u8), (6u8, 2u8, 8u8)] {
        IndexKind::Fragment
    } else if tags =~= seq![(1u8, 1u8, 3u8), (6u8, 2u8, 12u8)] {
        IndexKind::Skeleton
    } else if nctoc > 0 && tags =~= seq![(1u8, 1u8, 1u8), (6u8, 2u8, 2u8)] {
        IndexKind::Guide
    } else {
        IndexKind::Ncx
    }
}

/// `toc`
pub open spec fn toc_label() -> Seq<u8> { seq![116u8, 111u8, 99u8] }

/// The main-record row label for a detail record holding `es`.
pub open spec fn group_label(kind: IndexKind, es: Seq<RawEntryView>) -> Option<Seq<u8>> {
    match kind {
        IndexKind::Guide => if es.len() == 0 || es.last().0.len() == 0 {
            Some(toc_label())
        } else {
            Some(es.last().0)
        },
        _ => if es.len() == 0 { None } else { Some(es.last().0) },
    }
}

/// The VWI encodings of `values`, concatenated.
pub open spec fn values_bytes(values: Seq<u32>) -> Seq<u8>
    decreases values.len(),
{
    if values.len() == 0 { seq![] } else { values_bytes(values.drop_last()) + vwi(values.last() as nat) }
}

/// The control byte after the first `i` definitions (`None` if an
/// occurrence count exceeds one byte).
pub open spec fn control_upto(e: RawEntryView, tags: Seq<TagDefinition>, i: int) -> Option<u8>
    decreases i,
{
    if i <= 0 {
        Some(0u8)
    } else {
        match control_upto(e, tags, i - 1) {
            None => None,
            Some(c) => {
                let (tag, values_per_entry, mask) = tags[i - 1];
                let k = find_values_from(e.1, tag, 0);
                if k < 0 {
                    Some(c)
                } else {
                    let occurrences = e.1[k].1.len() / (values_per_entry as nat);
                    if occurrences > 255 {
                        None
                    } else {
                        Some(c | (((occurrences as u8) << u8_trailing_zeros(mask)) & mask))
                    }
                }
            },
        }
    }
}

/// The encoded values of the first `i` definitions present in `e`.
pub open spec fn row_values_upto(e: RawEntryView, tags: Seq<TagDefinition>, i: int) -> Seq<u8>
    decreases i,
{
    if i <= 0 {
        seq![]
    } else {
        let k = find_values_from(e.1, tags[i - 1].0, 0);
        row_values_upto(e, tags, i - 1) + if k < 0 { seq![] } else { values_bytes(e.1[k].1) }
    }
}

/// The detail-record row of one entry: text length, text, control byte and
/// values; `None` if the text exceeds 255 bytes or a count exceeds one byte.
pub open spec fn detail_row(e: RawEntryView, tags: Seq<TagDefinition>) -> Option<Seq<u8>> {
    if e.0.len() > 255 {
        None
    } else {
        match control_upto(e, tags, tags.len() as int) {
            None => None,
            Some(c) => Some(seq![e.0.len() as u8] + e.0 + seq![c]
                + row_values_upto(e, tags, tags.len() as int)),
        }
    }
}

/// The INDX magic followed by the big-endian header words.
pub open spec fn header_words(words: Seq<u32>) -> Seq<u8>
    decreases words.len(),
{
    if words.len() == 0 { tag_indx() } else { header_words(words.drop_last()) + be32(words.last()) }
}

/// The fixed part of a detail record holding `entry_count` rows.
pub open spec fn detail_header(entry_count: u32) -> Seq<u8> {
    header_words(seq![0xc0u32, 0, 1, 0, 0, entry_count, 0xffff_ffff, 0xffff_ffff, 0, 0, 0, 0, 0])
        + zeros(136)
}

/// The fixed part of a main record.
pub open spec fn main_header(entry_count: u32, detail_count: u32, nctoc: u32) -> Seq<u8> {
    set_word(
        header_words(seq![0xc0u32, 0, 0, 2, 0, detail_count, 65001, 0xffff_ffff, entry_count, 0, 0, 0, nctoc])
            + zeros(136),
        0xb4,
        0xc0,
    )
}

/// The IDXT offsets of `rows` laid out from `base`.
pub open spec fn row_offsets(rows: Seq<Seq<u8>>, base: int) -> Seq<u8>
    decreases rows.len(),
{
    if rows.len() == 0 {
        seq![]
    } else {
        row_offsets(rows.drop_last(), base) + be16((base + concat(rows.drop_last()).len()) as u16)
    }
}

/// The detail record holding `rows`, or `None` if its offsets exceed `u16`.
pub open spec fn detail_chunk(rows: Seq<Seq<u8>>) -> Option<Seq<u8>> {
    if rows.len() > u32::MAX {
        None
    } else {
        let body = detail_header(rows.len() as u32) + concat(rows);
        if body.len() + 4 + 2 * rows.len() > 0xffff {
            None
        } else {
            Some(set_word(body + tag_idxt() + row_offsets(rows, 0xc0), 20, body.len() as u32))
        }
    }
}

/// How many rows from `first` fit in one detail record, having taken `count`
/// rows of `bytes` total; `None` on size overflow.
pub open spec fn chunk_size(rows: Seq<Seq<u8>>, first: int, count: int, bytes: int) -> Option<int>
    decreases rows.len() - first - count,
{
    if first + count >= rows.len() || count < 0 {
        Some(count)
    } else {
        let next_bytes = bytes + rows[first + count].len();
        let record_len = 0xc0 + next_bytes + 4 + 2 * (count + 1);
        if record_len > usize::MAX {
            None
        } else if 0xc0 + next_bytes > 0xffff || record_len > 0xffff {
            Some(count)
        } else {
            chunk_size(rows, first, count + 1, next_bytes)
        }
    }
}

/// The greedy split of `rows` from `first` into detail records.
pub open spec fn details_from(rows: Seq<Seq<u8>>, first: int) -> Option<Seq<(int, int, Seq<u8>)>>
    decreases rows.len() - first,
{
    if first < 0 || first >= rows.len() {
        Some(seq![])
    } else {
        match chunk_size(rows, first, 0, 0) {
            None => None,
            Some(c) => if c <= 0 || first + c > rows.len() {
                None
            } else {
                match detail_chunk(rows.subrange(first, first + c)) {
                    None => None,
                    Some(b) => match details_from(rows, first + c) {
                        None => None,
                        Some(rest) => Some(seq![(first, c, b)] + rest),
                    },
                }
            },
        }
    }
}

/// The detail records of `rows`, which must cover `entry_count` entries.
pub open spec fn details_spec(rows: Seq<Seq<u8>>, entry_count: int) -> Option<Seq<(int, int, Seq<u8>)>> {
    match details_from(rows, 0) {
        None => None,
        Some(ds) => if rows.len() == 0 || rows.len() != entry_count { None } else { Some(ds) },
    }
}

/// The TAGX section describing `tags`.
pub open spec fn tagx_bytes(tags: Seq<TagDefinition>) -> Seq<u8> {
    tag_tagx() + be32((12 + (tags.len() + 1) * 4) as u32) + be32(1) + tag_descriptors(tags)
        + seq![0u8, 0, 0, 1]
}

/// The four-byte TAGX descriptors of `tags`.
pub open spec fn tag_descriptors(tags: Seq<TagDefinition>) -> Seq<u8>
    decreases tags.len(),
{
    if tags.len() == 0 {
        seq![]
    } else {
        tag_descriptors(tags.drop_last()) + seq![tags.last().0, tags.last().1, tags.last().2, 0u8]
    }
}

/// The main-record grouping rows for `details`, appended to `start`, with
/// their positions; `None` if a row cannot be encoded.
pub open spec fn group_rows(
    entries: Seq<RawEntryView>,
    details: Seq<(int, int, Seq<u8>)>,
    kind: IndexKind,
    start: Seq<u8>,
) -> Option<(Seq<u8>, Seq<u16>)>
    decreases details.len(),
{
    if details.len() == 0 {
        Some((start, seq![]))
    } else {
        match group_rows(entries, details.drop_last(), kind, start) {
            None => None,
            Some((b, ps)) => {
                let (first, count, _) = details.last();
                if first < 0 || count < 0 || first + count > entries.len() {
                    None
                } else {
                    match group_label(kind, entries.subrange(first, first + count)) {
                        None => None,
                        Some(label) => if count > 0xffff || b.len() > 0xffff || label.len() > 255 {
                            None
                        } else {
                            Some((
                                pad4(b + seq![label.len() as u8] + label + be16(count as u16)),
                                ps.push(b.len() as u16),
                            ))
                        },
                    }
                }
            },
        }
    }
}

/// The big-endian encodings of `ps`, concatenated.
pub open spec fn u16s_bytes(ps: Seq<u16>) -> Seq<u8>
    decreases ps.len(),
{
    if ps.len() == 0 { seq![] } else { u16s_bytes(ps.drop_last()) + be16(ps.last()) }
}

/// The main INDX record.
pub open spec fn main_spec(
    entries: Seq<RawEntryView>,
    details: Seq<(int, int, Seq<u8>)>,
    nctoc: u32,
    tags: Seq<TagDefinition>,
    kind: IndexKind,
) -> Option<Seq<u8>> {
    if entries.len() > u32::MAX || details.len() > u32::MAX {
        None
    } else {
        let head = main_header(entries.len() as u32, details.len() as u32, nctoc) + tagx_bytes(tags);
        match group_rows(entries, details, kind, head) {
            None => None,
            Some((b, ps)) => Some(pad4(set_word(b + tag_idxt() + u16s_bytes(ps), 20, b.len() as u32))),
        }
    }
}

/// The rows of all entries, if every row can be encoded.
pub open spec fn all_rows(entries: Seq<RawEntryView>, tags: Seq<TagDefinition>) -> Option<Seq<Seq<u8>>>
    decreases entries.len(),
{
    if entries.len() == 0 {
        Some(seq![])
    } else {
        match all_rows(entries.drop_last(), tags) {
            None => None,
            Some(rs) => match detail_row(entries.last(), tags) {
                None => None,
                Some(r) => Some(rs.push(r)),
            },
        }
    }
}

/// The main/detail INDX pair for `entries` under `tags`, or `None` where
/// the encoder reports an error.
pub open spec fn index_pair(entries: Seq<RawEntryView>, tags: Seq<TagDefinition>, nctoc: u32)
    -> Option<(Seq<u8>, Seq<Seq<u8>>)>
{
    if entries.len() == 0 || entries.len() > u32::MAX || tags.len() > 8 || !tags_valid(tags)
        || !entries_valid(entries, tags) {
        None
    } else {
        match all_rows(entries, tags) {
            None => None,
            Some(rows) => match details_spec(rows, entries.len() as int) {
                None => None,
                Some(ds) => match main_spec(entries, ds, nctoc, tags, index_kind_spec(tags, nctoc)) {
                    None => None,
                    Some(m) => Some((m, ds.map_values(|d: (int, int, Seq<u8>)| d.2))),
                },
            },
        }
    }
}

/// The byte views of `rows`.
pub open spec fn views(rows: Seq<Vec<u8>>) -> Seq<Seq<u8>> {
    rows.map_values(|r: Vec<u8>| r@)
}

// ---------------------------------------------------------------------------
// Headers

fn index_header_words(values: [u32; 13]) -> (r: Vec<u8>)
    ensures
        r@ == header_words(values@),
{
    let mut bytes: Vec<u8> = Vec::new();
    push_tag(&mut bytes, 73, 78, 68, 88);
    let mut i: usize = 0;
    assert(values@.take(0) =~= Seq::<u32>::empty());
    while i < 13
        invariant
            i <= 13,
            values@.len() == 13,
            bytes@ == header_words(values@.take(i as int)),
        decreases 13 - i,
    {
        assert(values@.take(i + 1).drop_last() =~= values@.take(i as int));
        push_u32_be(&mut bytes, values[i]);
        i = i + 1;
    }
    assert(values@.take(13) =~= values@);
    bytes
}

fn main_index_header(entry_count: u32, detail_count: u32, nctoc: u32) -> (r: Vec<u8>)
    ensures
        r@ == header_words(seq![0xc0u32, 0, 0, 2, 0, detail_count, 65001, 0xffff_ffff, entry_count, 0, 0, 0, nctoc]),
{
    let words = [0xc0u32, 0, 0, 2, 0, detail_count, 65001, 0xffff_ffff, entry_count, 0, 0, 0, nctoc];
    let r = index_header_words(words);
    assert(words@ =~= seq![0xc0u32, 0, 0, 2, 0, detail_count, 65001, 0xffff_ffff, entry_count, 0, 0, 0, nctoc]);
    r
}

fn detail_index_header(entry_count: u32) -> (r: Vec<u8>)
    ensures
        r@ == header_words(seq![0xc0u32, 0, 1, 0, 0, entry_count, 0xffff_ffff, 0xffff_ffff, 0, 0, 0, 0, 0]),
{
    let words = [0xc0u32, 0, 1, 0, 0, entry_count, 0xffff_ffff, 0xffff_ffff, 0, 0, 0, 0, 0];
    let r = index_header_words(words);
    assert(words@ =~= seq![0xc0u32, 0, 1, 0, 0, entry_count, 0xffff_ffff, 0xffff_ffff, 0, 0, 0, 0, 0]);
    r
}

proof fn lemma_header_words_len(words: Seq<u32>)
    ensures
        header_words(words).len() == 4 + 4 * words.len(),
    decreases words.len(),
{
    if words.len() > 0 {
        lemma_header_words_len(words.drop_last());
    }
}

// ---------------------------------------------------------------------------
// Tag schema validation

proof fn lemma_popcount_bound(v: u8)
    ensures
        popcount(v) <= 8,
        popcount(v) == 1 ==> v == 1 || v == 2 || v == 4 || v == 8 || v == 16 || v == 32 || v == 64 || v == 128,
{
    reveal_with_fuel(pow2, 9);
    lemma_popcount_bound_k(v as nat, 8);
    lemma_popcount_nat(v);
    if popcount(v) == 1 {
        lemma_popcount_one(v);
    }
}

proof fn lemma_popcount_one(v: u8)
    requires
        popcount(v) == 1,
    ensures
        v == 1 || v == 2 || v == 4 || v == 8 || v == 16 || v == 32 || v == 64 || v == 128,
    decreases v,
{
    if v % 2 == 1 {
        assert(popcount(v / 2) == 0);
        if v / 2 != 0 {
            lemma_popcount_pos(v / 2);
        }
    } else {
        lemma_popcount_one(v / 2);
    }
}

proof fn lemma_popcount_pos(v: u8)
    requires
        v != 0,
    ensures
        popcount(v) >= 1,
    decreases v,
{
    if v % 2 == 0 {
        lemma_popcount_pos(v / 2);
    }
}

spec fn popcount_nat(v: nat) -> nat
    decreases v,
{
    if v == 0 { 0 } else { v % 2 + popcount_nat(v / 2) }
}

proof fn lemma_popcount_bound_k(v: nat, k: nat)
    requires
        v < pow2(k),
    ensures
        popcount_nat(v) <= k,
    decreases v,
{
    if v > 0 {
        assert(k > 0) by {
            if k == 0 {
                assert(pow2(0) == 1);
            }
        }
        assert(pow2(k) == 2 * pow2((k - 1) as nat));
        lemma_popcount_bound_k(v / 2, (k - 1) as nat);
    }
}

proof fn lemma_popcount_nat(v: u8)
    ensures
        popcount(v) == popcount_nat(v as nat),
    decreases v,
{
    if v > 0 {
        lemma_popcount_nat(v / 2);
    }
}

/// `2^k`.
pub open spec fn pow2(k: nat) -> nat
    decreases k,
{
    if k == 0 { 1 } else { 2 * pow2((k - 1) as nat) }
}

fn count_ones(m: u8) -> (r: u32)
    ensures
        r as nat == popcount(m),
        r <= 8,
{
    proof {
        reveal_with_fuel(pow2, 9);
        lemma_popcount_bound_k(m as nat, 8);
        lemma_popcount_nat(m);
    }
    let mut v = m;
    let mut count: u32 = 0;
    while v != 0
        invariant
            count as nat + popcount(v) == popcount(m),
            popcount(m) <= 8,
        decreases v,
    {
        count = count + (v % 2) as u32;
        v = v / 2;
    }
    count
}

fn validate_tags(tags: &[TagDefinition]) -> (r: Result<(), Error>)
    ensures
        r is Ok <==> tags_valid(tags@),
        r matches Err(e) ==> e is Output,
{
    broadcast use vstd::std_specs::bits::axiom_u8_trailing_zeros;
    let mut masks: u8 = 0;
    let mut index: usize = 0;
    while index < tags.len()
        invariant
            index <= tags@.len(),
            masks == masks_upto(tags@, index as int),
            forall|i: int| 0 <= i < index ==> tag_ok(tags@, i),
        decreases tags@.len() - index,
    {
        let (tag, values_per_entry, mask) = tags[index];
        let mut j: usize = 0;
        while j < index
            invariant
                j <= index < tags@.len(),
                tag == tags@[index as int].0,
                forall|k: int| 0 <= k < j ==> tags@[k].0 != tag,
            decreases index - j,
        {
            if tags[j].0 == tag {
                assert(!tag_ok(tags@, index as int));
                return Err(output_error("INDX tag is repeated"));
            }
            j = j + 1;
        }
        if values_per_entry == 0 {
            assert(!tag_ok(tags@, index as int));
            return Err(output_error("INDX tag must carry at least one value"));
        }
        if mask == 0 || count_ones(mask) > 2 {
            assert(!tag_ok(tags@, index as int));
            return Err(output_error("INDX tag masks must be contiguous one- or two-bit fields"));
        }
        let normalized = mask >> mask.trailing_zeros();
        let n16 = normalized as u16;
        if n16 & (n16 + 1) != 0 {
            assert(!tag_ok(tags@, index as int));
            return Err(output_error("INDX tag masks must be contiguous one- or two-bit fields"));
        }
        if masks & mask != 0 {
            assert(!tag_ok(tags@, index as int));
            return Err(output_error("INDX tag masks must be unique"));
        }
        masks = masks | mask;
        if count_ones(mask) == 1 && values_per_entry != 1 {
            assert(tag_ok(tags@, index as int));
            index = index + 1;
            continue;
        }
        if index >= 8 {
            assert(!tag_ok(tags@, index as int));
            return Err(output_error("INDX control byte has too many tags"));
        }
        assert(tag_ok(tags@, index as int));
        index = index + 1;
    }
    Ok(())
}

proof fn lemma_find_def_range(tags: Seq<TagDefinition>, tag: u8, i: int)
    ensures
        find_def_from(tags, tag, i) == -1 || (i <= find_def_from(tags, tag, i) < tags.len()
            && tags[find_def_from(tags, tag, i)].0 == tag),
    decreases tags.len() - i,
{
    if i >= 0 && i < tags.len() && tags[i].0 != tag {
        lemma_find_def_range(tags, tag, i + 1);
    }
}

proof fn lemma_find_values_range(tags: Seq<(u8, Seq<u32>)>, tag: u8, k: int)
    ensures
        find_values_from(tags, tag, k) == -1 || (k <= find_values_from(tags, tag, k) < tags.len()
            && tags[find_values_from(tags, tag, k)].0 == tag),
    decreases tags.len() - k,
{
    if k >= 0 && k < tags.len() && tags[k].0 != tag {
        lemma_find_values_range(tags, tag, k + 1);
    }
}

fn find_tag_definition(tags: &[TagDefinition], tag: u8) -> (r: Option<usize>)
    ensures
        match r {
            Some(d) => d as int == find_def_from(tags@, tag, 0) && d < tags@.len() && tags@[d as int].0 == tag,
            None => find_def_from(tags@, tag, 0) == -1,
        },
{
    let mut i: usize = 0;
    while i < tags.len()
        invariant
            i <= tags@.len(),
            find_def_from(tags@, tag, 0) == find_def_from(tags@, tag, i as int),
        decreases tags@.len() - i,
    {
        if tags[i].0 == tag {
            return Some(i);
        }
        i = i + 1;
    }
    None
}

fn find_tag_values(tags: &Vec<(u8, Vec<u32>)>, tag: u8) -> (r: Option<usize>)
    ensures
        match r {
            Some(k) => k as int == find_values_from(tags@.map_values(|t: (u8, Vec<u32>)| group_view(t)), tag, 0)
                && k < tags@.len() && tags@[k as int].0 == tag,
            None => find_values_from(tags@.map_values(|t: (u8, Vec<u32>)| group_view(t)), tag, 0) == -1,
        },
{
    let ghost gv = tags@.map_values(|t: (u8, Vec<u32>)| group_view(t));
    let mut k: usize = 0;
    while k < tags.len()
        invariant
            k <= tags@.len(),
            gv == tags@.map_values(|t: (u8, Vec<u32>)| group_view(t)),
            find_values_from(gv, tag, 0) == find_values_from(gv, tag, k as int),
        decreases tags@.len() - k,
    {
        if tags[k].0 == tag {
            return Some(k);
        }
        k = k + 1;
    }
    None
}

fn validate_entries(entries: &[RawIndexEntry], tags: &[TagDefinition]) -> (r: Result<(), Error>)
    requires
        tags_valid(tags@),
    ensures
        r is Ok <==> entries_valid(raw_views(entries@), tags@),
        r matches Err(e) ==> e is Output,
{
    broadcast use vstd::std_specs::bits::axiom_u8_trailing_zeros;
    let mut i: usize = 0;
    while i < entries.len()
        invariant
            i <= entries@.len(),
            tags_valid(tags@),
            forall|p: int| 0 <= p < i ==> entry_ok(tags@, #[trigger] raw_views(entries@)[p]),
        decreases entries@.len() - i,
    {
        let entry = &entries[i];
        let ghost ev = raw_view(*entry);
        assert(raw_views(entries@)[i as int] == ev);
        let mut k: usize = 0;
        while k < entry.tags.len()
            invariant
                k <= entry.tags@.len(),
                entry == &entries@[i as int],
                i < entries@.len(),
                tags_valid(tags@),
                ev == raw_view(*entry),
                ev == raw_views(entries@)[i as int],
                forall|q: int| 0 <= q < k ==> value_group_ok(tags@, #[trigger] ev.1[q]),
            decreases entry.tags@.len() - k,
        {
            let tag = entry.tags[k].0;
            let n = entry.tags[k].1.len();
            assert(ev.1[k as int] == group_view(entry.tags@[k as int]));
            match find_tag_definition(tags, tag) {
                None => {
                    assert(!value_group_ok(tags@, ev.1[k as int]));
                    assert(!entry_ok(tags@, raw_views(entries@)[i as int]));
                    return Err(output_error("INDX entry uses unknown tag"));
                },
                Some(d) => {
                    let (_, values_per_entry, mask) = tags[d];
                    assert(tag_ok(tags@, d as int));
                    if n == 0 || n % (values_per_entry as usize) != 0 {
                        assert(!value_group_ok(tags@, ev.1[k as int]));
                        assert(!entry_ok(tags@, raw_views(entries@)[i as int]));
                        return Err(output_error("INDX tag values are not a multiple of its group size"));
                    }
                    let occurrences = n / (values_per_entry as usize);
                    let capacity = (mask >> mask.trailing_zeros()) as usize;
                    let ones = count_ones(mask);
                    if ones == 1 && occurrences != 1 {
                        assert(!value_group_ok(tags@, ev.1[k as int]));
                        assert(!entry_ok(tags@, raw_views(entries@)[i as int]));
                        return Err(output_error("INDX one-bit tag must have one occurrence"));
                    }
                    if ones > 1 && occurrences >= capacity {
                        assert(!value_group_ok(tags@, ev.1[k as int]));
                        assert(!entry_ok(tags@, raw_views(entries@)[i as int]));
                        return Err(output_error("INDX multi-bit tag occurrence count is reserved"));
                    }
                    assert(value_group_ok(tags@, ev.1[k as int]));
                },
            }
            k = k + 1;
        }
        let mut j: usize = 0;
        while j < tags.len()
            invariant
                j <= tags@.len(),
                entry == &entries@[i as int],
                i < entries@.len(),
                ev == raw_view(*entry),
                ev == raw_views(entries@)[i as int],
                forall|jj: int, k1: int, k2: int|
                    #![trigger tags@[jj], ev.1[k1], ev.1[k2]]
                    0 <= jj < j && 0 <= k1 < k2 < ev.1.len() ==> !(ev.1[k1].0 == tags@[jj].0
                        && ev.1[k2].0 == tags@[jj].0),
            decreases tags@.len() - j,
        {
            let tag = tags[j].0;
            let mut seen = false;
            let mut kk: usize = 0;
            while kk < entry.tags.len()
                invariant
                    kk <= entry.tags@.len(),
                    j < tags@.len(),
                    tag == tags@[j as int].0,
                    entry == &entries@[i as int],
                    i < entries@.len(),
                    ev == raw_view(*entry),
                    ev == raw_views(entries@)[i as int],
                    seen ==> exists|p: int| 0 <= p < kk && #[trigger] ev.1[p].0 == tag,
                    !seen ==> forall|p: int| 0 <= p < kk ==> #[trigger] ev.1[p].0 != tag,
                    forall|k1: int, k2: int|
                        #![trigger ev.1[k1], ev.1[k2]]
                        0 <= k1 < k2 < kk ==> !(ev.1[k1].0 == tag && ev.1[k2].0 == tag),
                decreases entry.tags@.len() - kk,
            {
                assert(ev.1[kk as int].0 == entry.tags@[kk as int].0);
                if entry.tags[kk].0 == tag {
                    if seen {
                        let ghost p = choose|p: int| 0 <= p < kk && #[trigger] ev.1[p].0 == tag;
                        assert(ev.1[p].0 == tags@[j as int].0 && ev.1[kk as int].0 == tags@[j as int].0);
                        assert(!entry_ok(tags@, raw_views(entries@)[i as int]));
                        return Err(output_error("INDX entry repeats tag"));
                    }
                    seen = true;
                }
                kk = kk + 1;
            }
            j = j + 1;
        }
        assert(entry_ok(tags@, ev));
        i = i + 1;
    }
    Ok(())
}

fn tags_equal(tags: &[TagDefinition], expected: &[TagDefinition]) -> (r: bool)
    ensures
        r == (tags@ =~= expected@),
{
    if tags.len() != expected.len() {
        return false;
    }
    let mut i: usize = 0;
    while i < tags.len()
        invariant
            i <= tags@.len(),
            tags@.len() == expected@.len(),
            forall|p: int| 0 <= p < i ==> tags@[p] == expected@[p],
        decreases tags@.len() - i,
    {
        let (a0, a1, a2) = tags[i];
        let (b0, b1, b2) = expected[i];
        if a0 != b0 || a1 != b1 || a2 != b2 {
            return false;
        }
        i = i + 1;
    }
    true
}

fn index_kind(tags: &[TagDefinition], nctoc: u32) -> (k: IndexKind)
    ensures
        k == index_kind_spec(tags@, nctoc),
{
    let fragment = [(2u8, 1u8, 1u8), (3u8, 1u8, 2u8), (4u8, 1u8, 4u8), (6u8, 2u8, 8u8)];
    let skeleton = [(1u8, 1u8, 3u8), (6u8, 2u8, 12u8)];
    let guide = [(1u8, 1u8, 1u8), (6u8, 2u8, 2u8)];
    assert(fragment@ =~= seq![(2u8, 1u8, 1u8), (3u8, 1u8, 2u8), (4u8, 1u8, 4u8), (6u8, 2u8, 8u8)]);
    assert(skeleton@ =~= seq![(1u8, 1u8, 3u8), (6u8, 2u8, 12u8)]);
    assert(guide@ =~= seq![(1u8, 1u8, 1u8), (6u8, 2u8, 2u8)]);
    if tags_equal(tags, &fragment) {
        IndexKind::Fragment
    } else if tags_equal(tags, &skeleton) {
        IndexKind::Skeleton
    } else if nctoc > 0 && tags_equal(tags, &guide) {
        IndexKind::Guide
    } else {
        IndexKind::Ncx
    }
}

fn grouping_label(kind: IndexKind, entries: &[RawIndexEntry]) -> (r: Result<Vec<u8>, Error>)
    ensures
        match group_label(kind, raw_views(entries@)) {
            Some(label) => r matches Ok(l) && l@ == label,
            None => r matches Err(e) && e is Output,
        },
{
    match kind {
        IndexKind::Guide => {
            if entries.len() == 0 || entries[entries.len() - 1].text.len() == 0 {
                let mut toc: Vec<u8> = Vec::new();
                toc.push(116u8);
                toc.push(111u8);
                toc.push(99u8);
                assert(toc@ =~= toc_label());
                Ok(toc)
            } else {
                Ok(entries[entries.len() - 1].text.clone())
            }
        },
        _ => {
            if entries.len() == 0 {
                Err(output_error("index cannot be empty"))
            } else {
                Ok(entries[entries.len() - 1].text.clone())
            }
        },
    }
}

proof fn lemma_control_none(e: RawEntryView, tags: Seq<TagDefinition>, i: int, j: int)
    requires
        1 <= i <= j,
        control_upto(e, tags, i) is None,
    ensures
        control_upto(e, tags, j) is None,
    decreases j - i,
{
    if i < j {
        lemma_control_none(e, tags, i, j - 1);
    }
}

fn encode_detail_row(entry: &RawIndexEntry, tags: &[TagDefinition]) -> (r: Result<Vec<u8>, Error>)
    requires
        tags_valid(tags@),
    ensures
        match detail_row(raw_view(*entry), tags@) {
            Some(b) => r matches Ok(row) && row@ == b,
            None => r matches Err(e) && e is Output,
        },
{
    broadcast use vstd::std_specs::bits::axiom_u8_trailing_zeros;
    if entry.text.len() > 255 {
        return Err(output_error("INDX entry text exceeds 255 bytes"));
    }
    let mut row: Vec<u8> = Vec::new();
    row.push(entry.text.len() as u8);
    push_bytes(&mut row, entry.text.as_slice());
    let mut control: u8 = 0;
    let mut t: usize = 0;
    while t < tags.len()
        invariant
            t <= tags@.len(),
            tags_valid(tags@),
            control_upto(raw_view(*entry), tags@, t as int) == Some(control),
        decreases tags@.len() - t,
    {
        let (tag, values_per_entry, mask) = tags[t];
        assert(tag_ok(tags@, t as int));
        match find_tag_values(&entry.tags, tag) {
            None => {},
            Some(k) => {
                let occurrences = entry.tags[k].1.len() / (values_per_entry as usize);
                let shift = mask.trailing_zeros();
                if occurrences > 255 {
                    proof {
                        lemma_control_none(raw_view(*entry), tags@, t + 1, tags@.len() as int);
                    }
                    return Err(output_error("INDX tag occurrence count exceeds u8"));
                }
                control = control | (((occurrences as u8) << shift) & mask);
            },
        }
        t = t + 1;
    }
    row.push(control);
    let ghost prefix = row@;
    assert(prefix =~= seq![entry.text@.len() as u8] + entry.text@ + seq![control]);
    assert(raw_view(*entry).0 == entry.text@);
    t = 0;
    while t < tags.len()
        invariant
            t <= tags@.len(),
            row@ == prefix + row_values_upto(raw_view(*entry), tags@, t as int),
        decreases tags@.len() - t,
    {
        let tag = tags[t].0;
        match find_tag_values(&entry.tags, tag) {
            None => {
                assert(row@ =~= prefix + row_values_upto(raw_view(*entry), tags@, (t + 1) as int));
            },
            Some(k) => {
                assert(raw_view(*entry).1[k as int].1 == entry.tags@[k as int].1@);
                let values = &entry.tags[k].1;
                let ghost base = row@;
                let mut m: usize = 0;
                while m < values.len()
                    invariant
                        m <= values@.len(),
                        row@ == base + values_bytes(values@.take(m as int)),
                    decreases values@.len() - m,
                {
                    assert(values@.take(m + 1).drop_last() =~= values@.take(m as int));
                    let encoded = encode_vwi(values[m]);
                    push_bytes(&mut row, encoded.as_slice());
                    m = m + 1;
                    assert(row@ =~= base + values_bytes(values@.take(m as int)));
                }
                assert(values@.take(m as int) =~= values@);
                assert(row@ =~= prefix + row_values_upto(raw_view(*entry), tags@, (t + 1) as int));
            },
        }
        t = t + 1;
    }
    Ok(row)
}

proof fn lemma_row_offsets_step(rows: Seq<Seq<u8>>, base: int, i: int)
    requires
        0 <= i < rows.len(),
    ensures
        row_offsets(rows.take(i + 1), base) == row_offsets(rows.take(i), base)
            + be16((base + concat(rows.take(i)).len()) as u16),
{
    assert(rows.take(i + 1).drop_last() =~= rows.take(i));
}

proof fn lemma_u16s_step(ps: Seq<u16>, p: u16)
    ensures
        u16s_bytes(ps.push(p)) == u16s_bytes(ps) + be16(p),
{
    assert(ps.push(p).drop_last() =~= ps);
}

fn encode_detail_chunk(rows: &[Vec<u8>], first_entry: usize) -> (r: Result<Vec<u8>, Error>)
    ensures
        match detail_chunk(views(rows@)) {
            Some(b) => r matches Ok(bytes) && bytes@ == b,
            None => r matches Err(e) && e is Output,
        },
{
    let ghost vs = views(rows@);
    if rows.len() > 0xffff_ffffusize {
        return Err(output_error("too many INDX entries"));
    }
    let mut bytes = detail_index_header(rows.len() as u32);
    proof {
        lemma_header_words_len(seq![0xc0u32, 0, 1, 0, 0, rows.len() as u32, 0xffff_ffff, 0xffff_ffff, 0, 0, 0, 0, 0]);
    }
    grow_zero(&mut bytes, INDEX_HEADER_LEN);
    let ghost header = bytes@;
    assert(header =~= detail_header(rows@.len() as u32));
    let mut positions: Vec<u16> = Vec::new();
    let mut i: usize = 0;
    while i < rows.len()
        invariant
            i <= rows@.len(),
            vs == views(rows@),
            vs.len() == rows@.len(),
            header.len() == 192,
            vs.len() <= 0xffff_ffff,
            header == detail_header(vs.len() as u32),
            bytes@ == header + concat(vs.take(i as int)),
            u16s_bytes(positions@) == row_offsets(vs.take(i as int), 0xc0),
            positions@.len() == i,
        decreases rows@.len() - i,
    {
        proof {
            lemma_concat_take_step(vs, i as int);
            lemma_row_offsets_step(vs, 0xc0, i as int);
            lemma_concat_take_len(vs, i as int);
        }
        let position = bytes.len();
        if position > 0xffff {
            assert(detail_header(vs.len() as u32) + concat(vs) == header + concat(vs));
            assert((header + concat(vs)).len() > 0xffff);
            assert(detail_chunk(vs) is None);
            return Err(output_error("INDX entry exceeds u16 row offsets"));
        }
        proof {
            lemma_u16s_step(positions@, position as u16);
        }
        positions.push(position as u16);
        push_bytes(&mut bytes, rows[i].as_slice());
        i = i + 1;
    }
    assert(vs.take(i as int) =~= vs);
    let idxt_start = bytes.len();
    if idxt_start > 0xffff || positions.len() > 0xffff || idxt_start + 4 + 2 * positions.len() > 0xffff {
        return Err(output_error("INDX detail record exceeds u16 offsets"));
    }
    let ghost body = bytes@;
    push_tag(&mut bytes, 73, 68, 88, 84);
    let mut p: usize = 0;
    while p < positions.len()
        invariant
            p <= positions@.len(),
            bytes@ == body + tag_idxt() + u16s_bytes(positions@.take(p as int)),
        decreases positions@.len() - p,
    {
        assert(positions@.take(p + 1).drop_last() =~= positions@.take(p as int));
        push_u16_be(&mut bytes, positions[p]);
        p = p + 1;
    }
    assert(positions@.take(p as int) =~= positions@);
    set_u32_be_at(&mut bytes, 20, idxt_start as u32);
    Ok(bytes)
}

/// The mathematical view of a detail record: first entry, count, bytes.
pub open spec fn routing_view(d: DetailRouting) -> (int, int, Seq<u8>) {
    (d.first_entry as int, d.entry_count as int, d.bytes@)
}

/// The views of `ds`.
pub open spec fn routing_views(ds: Seq<DetailRouting>) -> Seq<(int, int, Seq<u8>)> {
    ds.map_values(|d: DetailRouting| routing_view(d))
}

/// `p` followed by `r`, if `r` is present.
pub open spec fn prepend<T>(p: Seq<T>, r: Option<Seq<T>>) -> Option<Seq<T>> {
    match r {
        None => None,
        Some(rest) => Some(p + rest),
    }
}

/// Sum of the entry counts of `ds`.
pub open spec fn count_sum(ds: Seq<DetailRouting>) -> int
    decreases ds.len(),
{
    if ds.len() == 0 { 0 } else { count_sum(ds.drop_last()) + ds.last().entry_count }
}

proof fn lemma_count_sum_take(ds: Seq<DetailRouting>, j: int)
    requires
        0 <= j <= ds.len(),
    ensures
        count_sum(ds.take(j)) <= count_sum(ds),
    decreases ds.len() - j,
{
    if j == ds.len() {
        assert(ds.take(j) =~= ds);
    } else {
        lemma_count_sum_take(ds.drop_last(), j);
        assert(ds.drop_last().take(j) =~= ds.take(j));
        if j == ds.len() {
        }
        lemma_count_sum_take_dl(ds);
    }
}

proof fn lemma_count_sum_take_dl(ds: Seq<DetailRouting>)
    requires
        ds.len() > 0,
    ensures
        count_sum(ds.drop_last()) <= count_sum(ds),
{
}

fn encode_details(rows: &[Vec<u8>], entry_count: usize) -> (r: Result<Vec<DetailRouting>, Error>)
    ensures
        match details_spec(views(rows@), entry_count as int) {
            Some(ds) => r matches Ok(v) && routing_views(v@) == ds,
            None => r matches Err(e) && e is Output,
        },
{
    let ghost vs = views(rows@);
    let mut details: Vec<DetailRouting> = Vec::new();
    let mut first: usize = 0;
    let n = rows.len();
    while first < n
        invariant
            first <= rows@.len(),
            n == rows@.len(),
            vs == views(rows@),
            vs.len() == rows@.len(),
            details_from(vs, 0) == prepend(routing_views(details@), details_from(vs, first as int)),
            count_sum(details@) == first,
            details@.len() == 0 <==> first == 0,
        decreases rows@.len() - first,
    {
        let mut row_count: usize = 0;
        let mut row_bytes: usize = 0;
        while first + row_count < n
            invariant_except_break
                n == rows@.len(),
                details_from(vs, 0) == prepend(routing_views(details@), details_from(vs, first as int)),
                first < rows@.len(),
                vs == views(rows@),
                first + row_count <= rows@.len(),
                row_bytes <= 0xffff,
                chunk_size(vs, first as int, 0, 0) == chunk_size(vs, first as int, row_count as int, row_bytes as int),
            ensures
                n == rows@.len(),
                details_from(vs, 0) == prepend(routing_views(details@), details_from(vs, first as int)),
                first + row_count <= rows@.len(),
                chunk_size(vs, first as int, 0, 0) == Some(row_count as int),
            decreases rows@.len() - first - row_count,
        {
            let row_len = rows[first + row_count].len();
            let next_count = row_count + 1;
            if row_len > usize::MAX - 0xc4 - row_bytes {
                assert(chunk_size(vs, first as int, row_count as int, row_bytes as int) is None);
                assert(details_from(vs, first as int) is None);
                return Err(output_error("INDX detail record overflow"));
            }
            let next_bytes = row_bytes + row_len;
            if next_count > (usize::MAX - 0xc4 - next_bytes) / 2 {
                assert(chunk_size(vs, first as int, row_count as int, row_bytes as int) is None);
                assert(details_from(vs, first as int) is None);
                return Err(output_error("INDX detail record overflow"));
            }
            let idxt_start = INDEX_HEADER_LEN + next_bytes;
            let record_len = idxt_start + 4 + 2 * next_count;
            if idxt_start > 0xffff || record_len > 0xffff {
                break;
            }
            row_bytes = next_bytes;
            row_count = next_count;
        }
        if row_count == 0 {
            return Err(output_error("INDX entry cannot fit in a u16-offset detail record"));
        }
        let chunk = &rows[first..first + row_count];
        assert(views(chunk@) =~= vs.subrange(first as int, first + row_count));
        let detail = encode_detail_chunk(chunk, first)?;
        let ghost before = details@;
        details.push(DetailRouting { first_entry: first, entry_count: row_count, bytes: detail });
        assert(routing_views(details@) =~= routing_views(before) + seq![(first as int, row_count as int, details@.last().bytes@)]);
        assert(details@.drop_last() =~= before);
        first = first + row_count;
    }
    let mut total: usize = 0;
    let mut k: usize = 0;
    while k < details.len()
        invariant
            k <= details@.len(),
            total == count_sum(details@.take(k as int)),
            count_sum(details@) == rows@.len(),
            n == rows@.len(),
        decreases details@.len() - k,
    {
        assert(details@.take(k + 1).drop_last() =~= details@.take(k as int));
        proof {
            lemma_count_sum_take(details@, k + 1);
        }
        total = total + details[k].entry_count;
        k = k + 1;
    }
    assert(details@.take(k as int) =~= details@);
    assert(details_from(vs, rows@.len() as int) == Some(Seq::<(int, int, Seq<u8>)>::empty()));
    assert(routing_views(details@) + Seq::<(int, int, Seq<u8>)>::empty() =~= routing_views(details@));
    if details.len() == 0 || total != entry_count {
        return Err(output_error("INDX detail chunks do not cover all entries"));
    }
    Ok(details)
}

proof fn lemma_group_rows_none(
    entries: Seq<RawEntryView>,
    details: Seq<(int, int, Seq<u8>)>,
    kind: IndexKind,
    start: Seq<u8>,
    i: int,
    j: int,
)
    requires
        0 <= i <= j <= details.len(),
        group_rows(entries, details.take(i), kind, start) is None,
    ensures
        group_rows(entries, details.take(j), kind, start) is None,
    decreases j - i,
{
    if i < j {
        lemma_group_rows_none(entries, details, kind, start, i, j - 1);
        assert(details.take(j).drop_last() =~= details.take(j - 1));
    }
}

proof fn lemma_tag_descriptors_step(tags: Seq<TagDefinition>, i: int)
    requires
        0 <= i < tags.len(),
    ensures
        tag_descriptors(tags.take(i + 1)) == tag_descriptors(tags.take(i))
            + seq![tags[i].0, tags[i].1, tags[i].2, 0u8],
{
    assert(tags.take(i + 1).drop_last() =~= tags.take(i));
}

fn encode_main(
    entries: &[RawIndexEntry],
    details: &[DetailRouting],
    nctoc: u32,
    tags: &[TagDefinition],
    kind: IndexKind,
) -> (r: Result<Vec<u8>, Error>)
    requires
        tags@.len() <= 8,
    ensures
        match main_spec(raw_views(entries@), routing_views(details@), nctoc, tags@, kind) {
            Some(b) => r matches Ok(bytes) && bytes@ == b,
            None => r matches Err(e) && e is Output,
        },
{
    let ghost dv = routing_views(details@);
    let ghost ev = raw_views(entries@);
    if entries.len() > 0xffff_ffffusize {
        return Err(output_error("too many INDX entries"));
    }
    if details.len() > 0xffff_ffffusize {
        return Err(output_error("INDX detail-record count exceeds u32"));
    }
    let mut bytes = main_index_header(entries.len() as u32, details.len() as u32, nctoc);
    proof {
        lemma_header_words_len(seq![0xc0u32, 0, 0, 2, 0, details@.len() as u32, 65001, 0xffff_ffff,
            entries@.len() as u32, 0, 0, 0, nctoc]);
    }
    grow_zero(&mut bytes, INDEX_HEADER_LEN);
    set_u32_be_at(&mut bytes, 0xb4, 0xc0);
    assert(bytes@ =~= main_header(entries@.len() as u32, details@.len() as u32, nctoc));
    let ghost header = bytes@;
    let tagx_length = 12 + (tags.len() + 1) * 4;
    push_tag(&mut bytes, 84, 65, 71, 88);
    push_u32_be(&mut bytes, tagx_length as u32);
    push_u32_be(&mut bytes, 1);
    let ghost tagx_head = bytes@;
    let mut t: usize = 0;
    assert(tags@.take(0) =~= Seq::<TagDefinition>::empty());
    while t < tags.len()
        invariant
            t <= tags@.len() <= 8,
            bytes@ == tagx_head + tag_descriptors(tags@.take(t as int)),
            bytes@.len() == tagx_head.len() + 4 * t,
            tagx_head.len() == 204,
        decreases tags@.len() - t,
    {
        proof {
            lemma_tag_descriptors_step(tags@, t as int);
        }
        let (tag, values_per_entry, mask) = tags[t];
        push_tag(&mut bytes, tag, values_per_entry, mask, 0);
        t = t + 1;
    }
    assert(tags@.take(t as int) =~= tags@);
    push_tag(&mut bytes, 0, 0, 0, 1);
    let ghost head = bytes@;
    assert(head =~= header + tagx_bytes(tags@));
    let mut row_positions: Vec<u16> = Vec::new();
    let mut i: usize = 0;
    assert(dv.take(0) =~= Seq::<(int, int, Seq<u8>)>::empty());
    while i < details.len()
        invariant
            i <= details@.len(),
            dv == routing_views(details@),
            dv.len() == details@.len(),
            ev == raw_views(entries@),
            head.len() >= 192,
            head == main_header(entries@.len() as u32, details@.len() as u32, nctoc) + tagx_bytes(tags@),
            entries@.len() <= 0xffff_ffff,
            details@.len() <= 0xffff_ffff,
            group_rows(ev, dv.take(i as int), kind, head) == Some((bytes@, row_positions@)),
            192 + 4 * row_positions@.len() <= bytes@.len() <= 0xffff + 264,
            row_positions@.len() == i,
        decreases details@.len() - i,
    {
        assert(dv.take(i + 1).drop_last() =~= dv.take(i as int));
        assert(dv[i as int] == routing_view(details@[i as int]));
        let first = details[i].first_entry;
        let count = details[i].entry_count;
        if count > entries.len() || first > entries.len() - count {
            assert(dv.take(i + 1).last() == dv[i as int]);
            assert(group_rows(ev, dv.take(i + 1), kind, head) is None);
            proof {
                lemma_group_rows_none(ev, dv, kind, head, i + 1, dv.len() as int);
                assert(dv.take(dv.len() as int) =~= dv);
                assert(group_rows(ev, dv, kind, head) is None);
                assert(head == main_header(entries@.len() as u32, details@.len() as u32, nctoc) + tagx_bytes(tags@));
            }
            return Err(output_error("INDX detail metadata does not cover source entries"));
        }
        let end = first + count;
        let slice = &entries[first..end];
        assert(raw_views(slice@) =~= ev.subrange(first as int, end as int));
        let label = match grouping_label(kind, slice) {
            Ok(label) => label,
            Err(e) => {
                assert(raw_views(slice@) =~= ev.subrange(first as int, end as int));
                assert(dv.take(i + 1).last() == dv[i as int]);
                assert(group_rows(ev, dv.take(i + 1), kind, head) is None);
                proof {
                    lemma_group_rows_none(ev, dv, kind, head, i + 1, dv.len() as int);
                    assert(dv.take(dv.len() as int) =~= dv);
                    assert(group_rows(ev, dv, kind, head) is None);
                    assert(head == main_header(entries@.len() as u32, details@.len() as u32, nctoc) + tagx_bytes(tags@));
                }
                return Err(e);
            },
        };
        if count > 0xffff || bytes.len() > 0xffff || label.len() > 255 {
            proof {
                lemma_group_rows_none(ev, dv, kind, head, i + 1, dv.len() as int);
                assert(dv.take(dv.len() as int) =~= dv);
                assert(group_rows(ev, dv, kind, head) is None);
                assert(head == main_header(entries@.len() as u32, details@.len() as u32, nctoc) + tagx_bytes(tags@));
            }
            return Err(output_error("INDX grouping row exceeds its field widths"));
        }
        let ghost b = bytes@;
        row_positions.push(bytes.len() as u16);
        bytes.push(label.len() as u8);
        push_bytes(&mut bytes, label.as_slice());
        push_u16_be(&mut bytes, count as u16);
        align_zero(&mut bytes);
        assert(bytes@ == pad4(b + seq![label@.len() as u8] + label@ + be16(count as u16)));
        i = i + 1;
    }
    assert(dv.take(i as int) =~= dv);
    let idxt_position = bytes.len();
    let ghost b = bytes@;
    push_tag(&mut bytes, 73, 68, 88, 84);
    let mut p: usize = 0;
    assert(row_positions@.take(0) =~= Seq::<u16>::empty());
    while p < row_positions.len()
        invariant
            p <= row_positions@.len(),
            bytes@ == b + tag_idxt() + u16s_bytes(row_positions@.take(p as int)),
            bytes@.len() == b.len() + 4 + 2 * p,
            192 + 4 * row_positions@.len() <= b.len() <= 0xffff + 264,
        decreases row_positions@.len() - p,
    {
        assert(row_positions@.take(p + 1).drop_last() =~= row_positions@.take(p as int));
        push_u16_be(&mut bytes, row_positions[p]);
        p = p + 1;
    }
    assert(row_positions@.take(p as int) =~= row_positions@);
    set_u32_be_at(&mut bytes, 20, idxt_position as u32);
    align_zero(&mut bytes);
    Ok(bytes)
}

proof fn lemma_all_rows_none(entries: Seq<RawEntryView>, tags: Seq<TagDefinition>, i: int, j: int)
    requires
        0 <= i <= j <= entries.len(),
        all_rows(entries.take(i), tags) is None,
    ensures
        all_rows(entries.take(j), tags) is None,
    decreases j - i,
{
    if i < j {
        lemma_all_rows_none(entries, tags, i, j - 1);
        assert(entries.take(j).drop_last() =~= entries.take(j - 1));
    }
}

/// Encode the main/detail INDX pair for `entries` under the TAGX schema `tags`.
pub fn encode_index_pair(entries: &[RawIndexEntry], tags: &[TagDefinition], nctoc: u32)
    -> (r: Result<EncodedIndex, Error>)
    ensures
        match index_pair(raw_views(entries@), tags@, nctoc) {
            Some((m, ds)) => r matches Ok((main, details)) && main@ == m && views(details@) == ds,
            None => r matches Err(e) && e is Output,
        },
{
    if entries.len() == 0 {
        return Err(output_error("INDX pair requires at least one detail entry"));
    }
    if entries.len() > 0xffff_ffffusize {
        return Err(output_error("too many INDX entries"));
    }
    if tags.len() > 8 {
        return Err(output_error("INDX supports at most 8 tags"));
    }
    validate_tags(tags)?;
    validate_entries(entries, tags)?;
    let kind = index_kind(tags, nctoc);
    let ghost ev = raw_views(entries@);
    let mut rows: Vec<Vec<u8>> = Vec::new();
    let mut i: usize = 0;
    assert(ev.take(0) =~= Seq::<RawEntryView>::empty());
    while i < entries.len()
        invariant
            i <= entries@.len(),
            tags_valid(tags@),
            ev == raw_views(entries@),
            ev.len() == entries@.len(),
            all_rows(ev.take(i as int), tags@) == Some(views(rows@)),
        decreases entries@.len() - i,
    {
        assert(ev.take(i + 1).drop_last() =~= ev.take(i as int));
        assert(ev.take(i + 1).last() == raw_view(entries@[i as int]));
        let row = match encode_detail_row(&entries[i], tags) {
            Ok(row) => row,
            Err(e) => {
                proof {
                    lemma_all_rows_none(ev, tags@, i + 1, ev.len() as int);
                    assert(ev.take(ev.len() as int) =~= ev);
                }
                return Err(e);
            },
        };
        let ghost before = rows@;
        rows.push(row);
        assert(views(rows@) =~= views(before).push(row@));
        i = i + 1;
    }
    assert(ev.take(i as int) =~= ev);
    let details = encode_details(rows.as_slice(), entries.len())?;
    let main = encode_main(entries, details.as_slice(), nctoc, tags, kind)?;
    let mut out: Vec<Vec<u8>> = Vec::new();
    let mut k: usize = 0;
    while k < details.len()
        invariant
            k <= details@.len(),
            views(out@) == routing_views(details@).take(k as int).map_values(|d: (int, int, Seq<u8>)| d.2),
        decreases details@.len() - k,
    {
        let ghost before = out@;
        let b = details[k].bytes.clone();
        assert(b@ =~= details@[k as int].bytes@);
        out.push(b);
        assert(views(out@) =~= views(before).push(b@));
        assert(views(out@) =~= routing_views(details@).take(k + 1).map_values(|d: (int, int, Seq<u8>)| d.2));
        k = k + 1;
    }
    assert(routing_views(details@).take(k as int) =~= routing_views(details@));
    Ok((main, out))
}

// ---------------------------------------------------------------------------
// CTOC string records

/// `c` resized to `n` bytes (zero-filled when growing).
pub open spec fn resized(c: Seq<u8>, n: nat) -> Seq<u8> {
    if c.len() < n { c + zeros((n - c.len()) as nat) } else { c.take(n as int) }
}

/// Add one string to the CTOC state: a new 64 KiB page starts when the
/// string does not fit in the current one; its offset is the page base plus
/// the position within the page.
pub open spec fn ctoc_step(st: (Seq<u32>, Seq<Seq<u8>>), e: Seq<u8>) -> Option<(Seq<u32>, Seq<Seq<u8>>)> {
    let (offsets, chunks) = st;
    if e.len() > u32::MAX || chunks.len() == 0 {
        None
    } else {
        let encoded = vwi(e.len()) + e;
        if encoded.len() > 0xffff {
            None
        } else {
            let pages = if chunks.last().len() + encoded.len() > 0xffff { chunks.push(seq![]) } else { chunks };
            let base = (pages.len() - 1) * 0x1_0000 + pages.last().len();
            if base > u32::MAX {
                None
            } else {
                Some((offsets.push(base as u32), pages.update(pages.len() - 1, pages.last() + encoded)))
            }
        }
    }
}

/// The CTOC state after adding every string.
pub open spec fn ctoc_fold(entries: Seq<Seq<u8>>) -> Option<(Seq<u32>, Seq<Seq<u8>>)>
    decreases entries.len(),
{
    if entries.len() == 0 {
        Some((seq![], seq![seq![]]))
    } else {
        match ctoc_fold(entries.drop_last()) {
            None => None,
            Some(st) => ctoc_step(st, entries.last()),
        }
    }
}

/// The CTOC offsets and records: every page but the last is padded to 64 KiB.
pub open spec fn ctoc_spec(entries: Seq<Seq<u8>>) -> Option<(Seq<u32>, Seq<Seq<u8>>)> {
    match ctoc_fold(entries) {
        None => None,
        Some((offsets, chunks)) => Some((
            offsets,
            Seq::new(chunks.len(), |i: int| if i < chunks.len() - 1 { resized(chunks[i], 0x1_0000) } else { chunks[i] }),
        )),
    }
}

proof fn lemma_ctoc_fold_none(entries: Seq<Seq<u8>>, i: int, j: int)
    requires
        0 <= i <= j <= entries.len(),
        ctoc_fold(entries.take(i)) is None,
    ensures
        ctoc_fold(entries.take(j)) is None,
    decreases j - i,
{
    if i < j {
        lemma_ctoc_fold_none(entries, i, j - 1);
        assert(entries.take(j).drop_last() =~= entries.take(j - 1));
    }
}

/// Encode CTOC strings into page-addressed records, returning each string's
/// global offset and the records.
pub fn encode_ctoc_entries(entries: &[Vec<u8>]) -> (r: Result<(Vec<u32>, Vec<Vec<u8>>), Error>)
    ensures
        match ctoc_spec(views(entries@)) {
            Some((offsets, records)) => r matches Ok((o, c)) && o@ == offsets && views(c@) == records,
            None => r matches Err(e) && e is Output,
        },
{
    let ghost es = views(entries@);
    let mut offsets: Vec<u32> = Vec::new();
    let mut chunks: Vec<Vec<u8>> = Vec::new();
    chunks.push(Vec::new());
    assert(views(chunks@) =~= seq![Seq::<u8>::empty()]);
    let mut i: usize = 0;
    assert(es.take(0) =~= Seq::<Seq<u8>>::empty());
    while i < entries.len()
        invariant
            i <= entries@.len(),
            es == views(entries@),
            es.len() == entries@.len(),
            ctoc_fold(es.take(i as int)) == Some((offsets@, views(chunks@))),
            chunks@.len() >= 1,
            forall|k: int| 0 <= k < chunks@.len() ==> #[trigger] chunks@[k]@.len() <= 0xffff,
        decreases entries@.len() - i,
    {
        assert(es.take(i + 1).drop_last() =~= es.take(i as int));
        assert(es.take(i + 1).last() == es[i as int]);
        let entry = &entries[i];
        if entry.len() > 0xffff_ffffusize {
            proof {
                lemma_ctoc_fold_none(es, i + 1, es.len() as int);
                assert(es.take(es.len() as int) =~= es);
            }
            return Err(output_error("CTOC entry exceeds u32"));
        }
        let length = entry.len() as u32;
        let prefix = encode_vwi(length);
        if entry.len() > 0xffff || prefix.len() + entry.len() > 0xffff {
            proof {
                lemma_ctoc_fold_none(es, i + 1, es.len() as int);
                assert(es.take(es.len() as int) =~= es);
            }
            return Err(output_error("CTOC entry cannot fit in a u16-offset record"));
        }
        let encoded_length = prefix.len() + entry.len();
        let ghost before_chunks = views(chunks@);
        let current_len = chunks[chunks.len() - 1].len();
        if current_len + encoded_length > 0xffff {
            chunks.push(Vec::new());
            assert(views(chunks@) =~= before_chunks.push(seq![]));
        }
        let ghost pages = views(chunks@);
        let page_count = chunks.len();
        let last_len = chunks[page_count - 1].len();
        if page_count - 1 > 0xffff || (page_count - 1) * 0x1_0000 + last_len > 0xffff_ffff {
            proof {
                lemma_ctoc_fold_none(es, i + 1, es.len() as int);
                assert(es.take(es.len() as int) =~= es);
            }
            return Err(output_error("CTOC offset exceeds u32"));
        }
        let page_base = (page_count - 1) * 0x1_0000 + last_len;
        offsets.push(page_base as u32);
        let ghost chunks_before = chunks@;
        let mut chunk = chunks.pop().unwrap();
        assert(chunk@ == pages.last());
        assert(views(chunks@) =~= pages.drop_last());
        push_bytes(&mut chunk, prefix.as_slice());
        push_bytes(&mut chunk, entry.as_slice());
        assert(chunk@ =~= pages.last() + (vwi(entry@.len() as nat) + entry@));
        chunks.push(chunk);
        assert(views(chunks@) =~= pages.update(pages.len() - 1, pages.last() + (vwi(entry@.len() as nat) + entry@)));
        i = i + 1;
    }
    assert(es.take(i as int) =~= es);
    let mut records: Vec<Vec<u8>> = Vec::new();
    let count = chunks.len();
    let mut k: usize = 0;
    while k < count
        invariant
            k <= count,
            count == chunks@.len(),
            forall|j: int| 0 <= j < chunks@.len() ==> #[trigger] chunks@[j]@.len() <= 0xffff,
            views(records@) =~= Seq::new(k as nat, |j: int| if j < chunks@.len() - 1 {
                resized(chunks@[j]@, 0x1_0000)
            } else {
                chunks@[j]@
            }),
        decreases count - k,
    {
        let mut c = chunks[k].clone();
        assert(c@ =~= chunks@[k as int]@);
        if count > 1 && k < count - 1 {
            grow_zero(&mut c, 0x1_0000);
        }
        let ghost before = records@;
        records.push(c);
        assert(views(records@) =~= views(before).push(c@));
        k = k + 1;
    }
    Ok((offsets, records))
}

} // verus!