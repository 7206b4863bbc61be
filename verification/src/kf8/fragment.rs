//! FRAG: the fragment index and its CTOC selectors.

use vstd::prelude::*;
use vstd::string::StringSliceAdditionalSpecFns;
use vstd::utf8::encode_utf8;
use crate::error::{Error, output_error};
use crate::kf8::format::{decimal_text, to_decimal_padded};
use crate::kf8::indx::{RawIndexEntry, RawEntryView, EncodedIndex, EncodedIndexWithCtoc, TagDefinition,
    index_pair, ctoc_spec, raw_view, raw_views, views, encode_index_pair, encode_ctoc_entries};
use crate::kf8::wire::bytes_to_vec;

verus! {

/// One KF8 FRAG index entry.
///
/// `insert_position` is the skeleton insertion coordinate; `start` and
/// `length` describe the owning document's fragment-payload stream, which
/// restarts for each `file_number`; `sequence` is the navigation sequence.
#[derive(Debug, Clone)]
pub struct FragmentEntry {
    /// Insertion coordinate in the reconstructed stream.
    pub insert_position: u32,
    /// Owning document/skeleton.
    pub file_number: u32,
    /// Fragment navigation sequence.
    pub sequence: u32,
    /// Document-local payload-stream start.
    pub start: u32,
    /// Payload length.
    pub length: u32,
}

/// The FRAG index.
#[derive(Debug, Clone, Default)]
pub struct Fragment {
    /// Fragments in stream order.
    pub entries: Vec<FragmentEntry>,
}

/// `(a.0, a.1) < (b.0, b.1)` lexicographically.
pub open spec fn key_less(a: (u32, u32), b: (u32, u32)) -> bool {
    a.0 < b.0 || (a.0 == b.0 && a.1 < b.1)
}

/// Every payload range fits in `u32` and `(insert_position, sequence)` never decreases.
pub open spec fn fragment_valid(es: Seq<FragmentEntry>) -> bool {
    &&& forall|i: int| 0 <= i < es.len() ==> (#[trigger] es[i]).start + es[i].length <= u32::MAX
    &&& forall|i: int| 0 < i < es.len() ==> !key_less(
        ((#[trigger] es[i]).insert_position, es[i].sequence),
        (es[i - 1].insert_position, es[i - 1].sequence),
    )
}

/// The FRAG TAGX schema.
pub open spec fn fragment_tags() -> Seq<TagDefinition> {
    seq![(2u8, 1u8, 1u8), (3u8, 1u8, 2u8), (4u8, 1u8, 4u8), (6u8, 2u8, 8u8)]
}

/// The index entries: key is the ten-digit insert position; tag 2 is the
/// CTOC offset, 3 the file, 4 the sequence, 6 the payload range.
pub open spec fn fragment_raw(es: Seq<FragmentEntry>, offsets: Seq<u32>) -> Seq<RawEntryView> {
    Seq::new(if es.len() < offsets.len() { es.len() } else { offsets.len() }, |i: int| (
        decimal_text(es[i].insert_position as nat, 10),
        seq![
            (2u8, seq![offsets[i]]),
            (3u8, seq![es[i].file_number]),
            (4u8, seq![es[i].sequence]),
            (6u8, seq![es[i].start, es[i].length]),
        ],
    ))
}

/// The UTF-8 bytes of each selector.
pub open spec fn selector_bytes(selectors: Seq<String>) -> Seq<Seq<u8>> {
    selectors.map_values(|s: String| encode_utf8(s@))
}

/// The FRAG index, its details and its CTOC records for the entries and
/// their selectors; none when the entries are invalid, the selectors do not
/// match them one for one, or the records do not encode.
pub open spec fn frag_encoding(es: Seq<FragmentEntry>, selectors: Seq<String>) -> Option<(Seq<u8>, Seq<Seq<u8>>, Seq<Seq<u8>>)> {
    if !fragment_valid(es) || selectors.len() != es.len() {
        None
    } else {
        match ctoc_spec(selector_bytes(selectors)) {
            None => None,
            Some((offsets, records)) => if records.len() > u32::MAX {
                None
            } else {
                match index_pair(fragment_raw(es, offsets), fragment_tags(), records.len() as u32) {
                    Some((m, ds)) => Some((m, ds, records)),
                    None => None,
                }
            },
        }
    }
}

impl Fragment {
    /// Check payload ranges and key monotonicity.
    pub fn validate(&self) -> (r: Result<(), Error>)
        ensures
            r is Ok <==> fragment_valid(self.entries@),
            r matches Err(e) ==> e is Output,
    {
        let mut i: usize = 0;
        while i < self.entries.len()
            invariant
                i <= self.entries@.len(),
                forall|k: int| 0 <= k < i ==> (#[trigger] self.entries@[k]).start + self.entries@[k].length <= u32::MAX,
                forall|k: int| 0 < k < i ==> !key_less(
                    ((#[trigger] self.entries@[k]).insert_position, self.entries@[k].sequence),
                    (self.entries@[k - 1].insert_position, self.entries@[k - 1].sequence),
                ),
            decreases self.entries@.len() - i,
        {
            let entry = &self.entries[i];
            if entry.length > 0xffff_ffff - entry.start {
                return Err(output_error("fragment range overflow"));
            }
            if i > 0 {
                let previous = &self.entries[i - 1];
                if entry.insert_position < previous.insert_position
                    || (entry.insert_position == previous.insert_position && entry.sequence < previous.sequence) {
                    return Err(output_error("fragment positions must be monotonic"));
                }
            }
            i = i + 1;
        }
        Ok(())
    }

    /// Encode FRAG with its CTOC selectors: validate, require one selector
    /// per entry, then encode the selectors and the index.
    pub fn encode_pair_with_ctoc(&self, selectors: &[String]) -> (r: Result<EncodedIndexWithCtoc, Error>)
        ensures
            !fragment_valid(self.entries@) ==> (r matches Err(e) && e is Output),
            fragment_valid(self.entries@) && selectors@.len() != self.entries@.len() ==> (r matches Err(e) && e is Output),
            fragment_valid(self.entries@) && selectors@.len() == self.entries@.len() ==> match ctoc_spec(selector_bytes(selectors@)) {
                None => r matches Err(e) && e is Output,
                Some((offsets, records)) => if records.len() > u32::MAX {
                    r matches Err(e) && e is Output
                } else {
                    match index_pair(fragment_raw(self.entries@, offsets), fragment_tags(), records.len() as u32) {
                        Some((m, ds)) => r matches Ok((main, details, ctoc)) && main@ == m && views(details@) == ds
                            && views(ctoc@) == records,
                        None => r matches Err(e) && e is Output,
                    }
                },
            },
            match frag_encoding(self.entries@, selectors@) {
                Some((m, ds, c)) => r matches Ok((main, details, ctoc)) && main@ == m && views(details@) == ds
                    && views(ctoc@) == c,
                None => r matches Err(e) && e is Output,
            },
    {
        self.validate()?;
        if selectors.len() != self.entries.len() {
            return Err(output_error("fragment CTOC selector count does not match entries"));
        }
        let mut selector_texts: Vec<Vec<u8>> = Vec::new();
        let mut i: usize = 0;
        while i < selectors.len()
            invariant
                i <= selectors@.len(),
                views(selector_texts@) =~= selector_bytes(selectors@).take(i as int),
            decreases selectors@.len() - i,
        {
            let text = bytes_to_vec(selectors[i].as_str().as_bytes());
            let ghost before = selector_texts@;
            selector_texts.push(text);
            assert(views(selector_texts@) =~= views(before).push(text@));
            i = i + 1;
        }
        assert(selector_bytes(selectors@).take(i as int) =~= selector_bytes(selectors@));
        let (offsets, ctoc) = encode_ctoc_entries(selector_texts.as_slice())?;
        if ctoc.len() > 0xffff_ffffusize {
            return Err(output_error("fragment CTOC count exceeds u32"));
        }
        let (main, details) = self.encode_pair_with_offsets(offsets.as_slice(), ctoc.len() as u32)?;
        Ok((main, details, ctoc))
    }

    fn encode_pair_with_offsets(&self, offsets: &[u32], ctoc_count: u32) -> (r: Result<EncodedIndex, Error>)
        ensures
            match index_pair(fragment_raw(self.entries@, offsets@), fragment_tags(), ctoc_count) {
                Some((m, ds)) => r matches Ok((main, details)) && main@ == m && views(details@) == ds,
                None => r matches Err(e) && e is Output,
            },
    {
        let n = if self.entries.len() < offsets.len() { self.entries.len() } else { offsets.len() };
        let mut entries: Vec<RawIndexEntry> = Vec::new();
        let mut index: usize = 0;
        while index < n
            invariant
                index <= n,
                n <= self.entries@.len(),
                n <= offsets@.len(),
                n == (if self.entries@.len() < offsets@.len() { self.entries@.len() } else { offsets@.len() }),
                raw_views(entries@) =~~= fragment_raw(self.entries@, offsets@).take(index as int),
            decreases n - index,
        {
            let entry = &self.entries[index];
            let text = to_decimal_padded(entry.insert_position as u64, 10);
            let tags = vec![
                (2u8, vec![offsets[index]]),
                (3u8, vec![entry.file_number]),
                (4u8, vec![entry.sequence]),
                (6u8, vec![entry.start, entry.length]),
            ];
            let raw = RawIndexEntry { text, tags };
            assert(raw_view(raw) =~~= fragment_raw(self.entries@, offsets@)[index as int]);
            let ghost before = entries@;
            entries.push(raw);
            assert(raw_views(entries@) =~~= raw_views(before).push(raw_view(raw)));
            index = index + 1;
        }
        assert(fragment_raw(self.entries@, offsets@).take(index as int) =~~= fragment_raw(self.entries@, offsets@));
        let schema = [(2u8, 1u8, 1u8), (3u8, 1u8, 2u8), (4u8, 1u8, 4u8), (6u8, 2u8, 8u8)];
        assert(schema@ =~= fragment_tags());
        encode_index_pair(entries.as_slice(), &schema, ctoc_count)
    }
}

} // verus!
