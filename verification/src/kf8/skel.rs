//! SKEL: the document skeleton index.

use vstd::prelude::*;
use crate::error::{Error, output_error};
use crate::kf8::format::{decimal_text, to_decimal_padded};
use crate::kf8::indx::{
    RawIndexEntry, RawEntryView, EncodedIndex, TagDefinition, index_pair, raw_view, raw_views,
    views, encode_index_pair,
};
use crate::kf8::wire::push_bytes;

verus! {

/// One document skeleton/shell range in the reconstructed text stream.
#[derive(Debug, Clone)]
pub struct SkelEntry {
    /// Number of fragments inserted into this skeleton.
    pub fragment_count: u32,
    /// Stream offset of the skeleton.
    pub start: u32,
    /// Skeleton length.
    pub length: u32,
}

/// The SKEL index: one entry per document.
#[derive(Debug, Clone, Default)]
pub struct Skel {
    /// Skeletons in stream order.
    pub entries: Vec<SkelEntry>,
}

/// Every range fits in `u32` and none starts before the previous one ends.
pub open spec fn skel_valid(es: Seq<SkelEntry>) -> bool {
    &&& forall|i: int| 0 <= i < es.len() ==> (#[trigger] es[i]).start + es[i].length <= u32::MAX
    &&& forall|i: int| 0 < i < es.len() ==> (#[trigger] es[i]).start >= es[i - 1].start + es[i - 1].length
}

/// The SKEL TAGX schema.
pub open spec fn skel_tags() -> Seq<TagDefinition> {
    seq![(1u8, 1u8, 3u8), (6u8, 2u8, 12u8)]
}

/// `SKEL` followed by the zero-padded ten-digit entry number.
pub open spec fn skel_text(i: nat) -> Seq<u8> {
    seq![83u8, 75u8, 69u8, 76u8] + decimal_text(i, 10)
}

/// The index entry of skeleton `i`: the fragment count and the range, each
/// written twice so that the two-bit masks carry an occurrence count of two.
pub open spec fn skel_raw(es: Seq<SkelEntry>) -> Seq<RawEntryView> {
    Seq::new(es.len(), |i: int| (
        skel_text(i as nat),
        seq![
            (1u8, seq![es[i].fragment_count, es[i].fragment_count]),
            (6u8, seq![es[i].start, es[i].length, es[i].start, es[i].length]),
        ],
    ))
}

/// The SKEL index and its details; none when the ranges are invalid or do
/// not encode.
pub open spec fn skel_encoding(es: Seq<SkelEntry>) -> Option<(Seq<u8>, Seq<Seq<u8>>)> {
    if !skel_valid(es) {
        None
    } else {
        index_pair(skel_raw(es), skel_tags(), 0)
    }
}

impl Skel {
    /// Check that the ranges fit and are monotonic.
    pub fn validate(&self) -> (r: Result<(), Error>)
        ensures
            r is Ok <==> skel_valid(self.entries@),
            r matches Err(e) ==> e is Output,
    {
        let mut previous_end: u32 = 0;
        let mut i: usize = 0;
        while i < self.entries.len()
            invariant
                i <= self.entries@.len(),
                i > 0 ==> previous_end == self.entries@[i - 1].start + self.entries@[i - 1].length,
                i == 0 ==> previous_end == 0,
                forall|k: int| 0 <= k < i ==> (#[trigger] self.entries@[k]).start + self.entries@[k].length <= u32::MAX,
                forall|k: int| 0 < k < i ==> (#[trigger] self.entries@[k]).start
                    >= self.entries@[k - 1].start + self.entries@[k - 1].length,
            decreases self.entries@.len() - i,
        {
            let entry = &self.entries[i];
            if entry.length > 0xffff_ffff - entry.start {
                return Err(output_error("SKEL range overflow"));
            }
            let end = entry.start + entry.length;
            if entry.start < previous_end {
                return Err(output_error("SKEL ranges must be monotonic"));
            }
            previous_end = end;
            i = i + 1;
        }
        Ok(())
    }

    /// Encode the SKEL main/detail index pair.
    pub fn encode_pair(&self) -> (r: Result<EncodedIndex, Error>)
        ensures
            !skel_valid(self.entries@) ==> (r matches Err(e) && e is Output),
            skel_valid(self.entries@) ==> match index_pair(skel_raw(self.entries@), skel_tags(), 0) {
                Some((m, ds)) => r matches Ok((main, details)) && main@ == m && views(details@) == ds,
                None => r matches Err(e) && e is Output,
            },
            match skel_encoding(self.entries@) {
                Some((m, ds)) => r matches Ok((main, details)) && main@ == m && views(details@) == ds,
                None => r matches Err(e) && e is Output,
            },
    {
        self.validate()?;
        let mut entries: Vec<RawIndexEntry> = Vec::new();
        let mut index: usize = 0;
        while index < self.entries.len()
            invariant
                index <= self.entries@.len(),
                raw_views(entries@) =~~= skel_raw(self.entries@).take(index as int),
            decreases self.entries@.len() - index,
        {
            let entry = &self.entries[index];
            let mut text: Vec<u8> = Vec::new();
            text.push(83u8);
            text.push(75u8);
            text.push(69u8);
            text.push(76u8);
            let digits = to_decimal_padded(index as u64, 10);
            push_bytes(&mut text, digits.as_slice());
            let tags = vec![
                (1u8, vec![entry.fragment_count, entry.fragment_count]),
                (6u8, vec![entry.start, entry.length, entry.start, entry.length]),
            ];
            let raw = RawIndexEntry { text, tags };
            assert(raw_view(raw) =~~= skel_raw(self.entries@)[index as int]);
            let ghost before = entries@;
            entries.push(raw);
            assert(raw_views(entries@) =~~= raw_views(before).push(raw_view(raw)));
            index = index + 1;
        }
        assert(skel_raw(self.entries@).take(index as int) =~~= skel_raw(self.entries@));
        let schema = [(1u8, 1u8, 3u8), (6u8, 2u8, 12u8)];
        assert(schema@ =~= skel_tags());
        encode_index_pair(entries.as_slice(), &schema, 0)
    }
}

} // verus!
