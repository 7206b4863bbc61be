//! The guide index: landmark routes in KF8 fid/off coordinates.
//!
//! EXTH 116 separately stores the absolute RawML start-reading position.

use vstd::prelude::*;
use vstd::string::StringSliceAdditionalSpecFns;
use vstd::utf8::encode_utf8;
use crate::error::{Error, output_error};
use crate::kf8::indx::{
    RawIndexEntry, RawEntryView, EncodedIndexWithCtoc, TagDefinition, index_pair, ctoc_spec, raw_view,
    raw_views, views, encode_index_pair, encode_ctoc_entries,
};
use crate::kf8::wire::bytes_to_vec;

verus! {

/// One guide route: the landmark kind, its label as plain display text, and
/// the fragment sequence number and offset it points at.
#[derive(Debug, Clone)]
pub struct GuidePosition {
    pub kind: String,
    pub label: String,
    pub sequence_number: u32,
    pub off: u32,
}

/// The guide: its routes in order.
#[derive(Debug, Clone, Default)]
pub struct Guide {
    pub positions: Vec<GuidePosition>,
}

/// The guide TAGX schema: the CTOC offset of the label, then the sequence
/// number and offset.
pub open spec fn guide_tags() -> Seq<TagDefinition> {
    seq![(1u8, 1u8, 1u8), (6u8, 2u8, 2u8)]
}

/// The index entries of the routes with the labels' CTOC offsets.
pub open spec fn guide_raw(ps: Seq<GuidePosition>, offsets: Seq<u32>) -> Seq<RawEntryView> {
    Seq::new(if ps.len() < offsets.len() { ps.len() } else { offsets.len() }, |i: int| (
        encode_utf8(ps[i].kind@),
        seq![(1u8, seq![offsets[i]]), (6u8, seq![ps[i].sequence_number, ps[i].off])],
    ))
}

/// The UTF-8 bytes of each label.
pub open spec fn label_bytes(ps: Seq<GuidePosition>) -> Seq<Seq<u8>> {
    Seq::new(ps.len(), |i: int| encode_utf8(ps[i].label@))
}

/// The guide index, its details and its CTOC records; all empty without
/// routes, none when the labels or the entries do not encode.
pub open spec fn guide_encoding(ps: Seq<GuidePosition>) -> Option<(Seq<u8>, Seq<Seq<u8>>, Seq<Seq<u8>>)> {
    if ps.len() == 0 {
        Some((Seq::empty(), Seq::empty(), Seq::empty()))
    } else {
        match ctoc_spec(label_bytes(ps)) {
            None => None,
            Some((offsets, records)) => if records.len() > u32::MAX {
                None
            } else {
                match index_pair(guide_raw(ps, offsets), guide_tags(), records.len() as u32) {
                    Some((m, ds)) => Some((m, ds, records)),
                    None => None,
                }
            },
        }
    }
}

impl Guide {
    /// The guide of the routes.
    pub fn from_positions(positions: Vec<GuidePosition>) -> (g: Self)
        ensures
            g.positions == positions,
    {
        Guide { positions }
    }

    /// Encode the guide index with the labels in its CTOC; an empty guide
    /// encodes to nothing.
    pub fn encode_pair(&self) -> (r: Result<EncodedIndexWithCtoc, Error>)
        ensures
            match guide_encoding(self.positions@) {
                Some((m, ds, c)) => r matches Ok((main, details, ctoc)) && main@ == m && views(details@) == ds
                    && views(ctoc@) == c,
                None => r matches Err(e) && e is Output,
            },
    {
        if self.positions.len() == 0 {
            let main: Vec<u8> = Vec::new();
            let details: Vec<Vec<u8>> = Vec::new();
            let ctoc: Vec<Vec<u8>> = Vec::new();
            assert(views(details@) =~= Seq::<Seq<u8>>::empty());
            assert(views(ctoc@) =~= Seq::<Seq<u8>>::empty());
            return Ok((main, details, ctoc));
        }
        let ps = &self.positions;
        let mut labels: Vec<Vec<u8>> = Vec::new();
        let mut i: usize = 0;
        while i < ps.len()
            invariant
                i <= ps@.len(),
                views(labels@) =~= label_bytes(ps@).take(i as int),
            decreases ps@.len() - i,
        {
            let text = bytes_to_vec(ps[i].label.as_str().as_bytes());
            let ghost before = labels@;
            labels.push(text);
            assert(views(labels@) =~= views(before).push(text@));
            i = i + 1;
        }
        assert(label_bytes(ps@).take(i as int) =~= label_bytes(ps@));
        let (offsets, ctoc) = encode_ctoc_entries(labels.as_slice())?;
        if ctoc.len() > 0xffff_ffffusize {
            return Err(output_error("Guide CTOC count exceeds u32"));
        }
        let n = if ps.len() < offsets.len() { ps.len() } else { offsets.len() };
        let mut entries: Vec<RawIndexEntry> = Vec::new();
        let mut index: usize = 0;
        while index < n
            invariant
                index <= n,
                n == (if ps@.len() < offsets@.len() { ps@.len() } else { offsets@.len() }),
                raw_views(entries@) =~~= guide_raw(ps@, offsets@).take(index as int),
            decreases n - index,
        {
            let p = &ps[index];
            let text = bytes_to_vec(p.kind.as_str().as_bytes());
            let tags = vec![(1u8, vec![offsets[index]]), (6u8, vec![p.sequence_number, p.off])];
            let raw = RawIndexEntry { text, tags };
            assert(raw_view(raw) =~~= guide_raw(ps@, offsets@)[index as int]);
            let ghost before = entries@;
            entries.push(raw);
            assert(raw_views(entries@) =~~= raw_views(before).push(raw_view(raw)));
            index = index + 1;
        }
        assert(guide_raw(ps@, offsets@).take(index as int) =~~= guide_raw(ps@, offsets@));
        let schema = [(1u8, 1u8, 1u8), (6u8, 2u8, 2u8)];
        assert(schema@ =~= guide_tags());
        let (main, details) = encode_index_pair(entries.as_slice(), &schema, ctoc.len() as u32)?;
        Ok((main, details, ctoc))
    }
}

} // verus!
