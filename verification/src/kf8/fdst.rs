//! FDST flow-division table.

use vstd::prelude::*;
use crate::error::{Error, output_error};
use crate::kf8::wire::{be32, tag_fdst, push_tag, push_u32_be};

verus! {

/// One flow range `[start, end)` of the text stream.
#[derive(Debug, Clone, Copy, PartialEq, Eq)]
pub struct FdstEntry {
    /// First byte of the flow.
    pub start: u32,
    /// One past the last byte of the flow.
    pub end: u32,
}

/// The FDST table: flow ranges in stream order.
#[derive(Debug, Clone, Default)]
pub struct Fdst {
    /// The flows.
    pub entries: Vec<FdstEntry>,
}

/// The end of the last flow, or zero with no flows.
pub open spec fn fdst_end(es: Seq<FdstEntry>) -> u32 {
    if es.len() == 0 { 0 } else { es.last().end }
}

/// The ranges start at zero, are non-empty-or-empty but well ordered, never
/// overlap, and end exactly at `raw_length`.
pub open spec fn fdst_valid(es: Seq<FdstEntry>, raw_length: u32) -> bool {
    &&& es.len() <= u32::MAX
    &&& es.len() > 0 ==> es[0].start == 0
    &&& forall|i: int| 0 <= i < es.len() ==> #[trigger] es[i].start <= es[i].end
    &&& forall|i: int| 0 < i < es.len() ==> #[trigger] es[i].start >= es[i - 1].end
    &&& fdst_end(es) == raw_length
}

/// The encoded ranges.
pub open spec fn fdst_ranges(es: Seq<FdstEntry>) -> Seq<u8>
    decreases es.len(),
{
    if es.len() == 0 { seq![] } else { fdst_ranges(es.drop_last()) + be32(es.last().start) + be32(es.last().end) }
}

/// The encoded FDST record.
pub open spec fn fdst_bytes(es: Seq<FdstEntry>) -> Seq<u8> {
    tag_fdst() + be32(12) + be32(es.len() as u32) + fdst_ranges(es)
}

impl Fdst {
    /// Build a table from `(start, end)` pairs.
    pub fn from_ranges(ranges: &[(u32, u32)]) -> (r: Self)
        ensures
            r.entries@.len() == ranges@.len(),
            forall|i: int| 0 <= i < ranges@.len() ==> #[trigger] r.entries@[i]
                == (FdstEntry { start: ranges@[i].0, end: ranges@[i].1 }),
    {
        let mut entries: Vec<FdstEntry> = Vec::new();
        let mut i: usize = 0;
        while i < ranges.len()
            invariant
                i <= ranges@.len(),
                entries@.len() == i,
                forall|k: int| 0 <= k < i ==> #[trigger] entries@[k]
                    == (FdstEntry { start: ranges@[k].0, end: ranges@[k].1 }),
            decreases ranges@.len() - i,
        {
            let (start, end) = ranges[i];
            entries.push(FdstEntry { start, end });
            i = i + 1;
        }
        Fdst { entries }
    }

    /// Check that the ranges are contiguous-or-increasing from zero and end
    /// at `raw_length`.
    pub fn validate(&self, raw_length: u32) -> (r: Result<(), Error>)
        ensures
            r is Ok <==> fdst_valid(self.entries@, raw_length),
            r matches Err(e) ==> e is Output,
    {
        if self.entries.len() > 0xffff_ffffusize {
            return Err(output_error("FDST entry count exceeds u32"));
        }
        let mut previous_end: u32 = 0;
        let mut index: usize = 0;
        while index < self.entries.len()
            invariant
                index <= self.entries@.len() <= u32::MAX,
                previous_end == fdst_end(self.entries@.take(index as int)),
                index > 0 ==> self.entries@[0].start == 0,
                forall|i: int| 0 <= i < index ==> #[trigger] self.entries@[i].start <= self.entries@[i].end,
                forall|i: int| 0 < i < index ==> #[trigger] self.entries@[i].start >= self.entries@[i - 1].end,
            decreases self.entries@.len() - index,
        {
            let entry = self.entries[index];
            if index == 0 && entry.start != 0 {
                return Err(output_error("FDST first range must start at zero"));
            }
            if entry.start > entry.end || entry.start < previous_end {
                assert(index > 0 ==> previous_end == self.entries@[index - 1].end);
                return Err(output_error("FDST ranges must be monotonic and non-negative"));
            }
            previous_end = entry.end;
            index = index + 1;
            assert(self.entries@.take(index as int).last() == entry);
        }
        assert(self.entries@.take(index as int) =~= self.entries@);
        if previous_end != raw_length {
            return Err(output_error("FDST ranges must end at raw markup length"));
        }
        Ok(())
    }

    /// Encode the table; its ranges must be valid up to their own end.
    pub fn encode(&self) -> (bytes: Vec<u8>)
        requires
            fdst_valid(self.entries@, fdst_end(self.entries@)),
        ensures
            bytes@ == fdst_bytes(self.entries@),
    {
        let mut bytes: Vec<u8> = Vec::new();
        push_tag(&mut bytes, 70, 68, 83, 84);
        push_u32_be(&mut bytes, 12);
        push_u32_be(&mut bytes, self.entries.len() as u32);
        let ghost head = bytes@;
        let mut i: usize = 0;
        while i < self.entries.len()
            invariant
                i <= self.entries@.len(),
                bytes@ == head + fdst_ranges(self.entries@.take(i as int)),
            decreases self.entries@.len() - i,
        {
            assert(self.entries@.take(i + 1).drop_last() =~= self.entries@.take(i as int));
            push_u32_be(&mut bytes, self.entries[i].start);
            push_u32_be(&mut bytes, self.entries[i].end);
            i = i + 1;
        }
        assert(self.entries@.take(i as int) =~= self.entries@);
        bytes
    }
}

} // verus!
