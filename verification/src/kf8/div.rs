//! The diagnostic DIV coordinate table.

use vstd::prelude::*;
use crate::error::{Error, output_error};

verus! {

/// One DIV pointer: a text record and an offset within it.
#[derive(Debug, Clone, Copy, PartialEq, Eq)]
pub struct DivEntry {
    /// Text record index.
    pub record: u32,
    /// Offset within the record.
    pub offset: u32,
}

/// Diagnostic DIV coordinate table keeping the legacy DIV invariants explicit.
#[derive(Debug, Clone, Default)]
pub struct Div {
    /// One pointer per text record.
    pub entries: Vec<DivEntry>,
}

/// `a` comes after `b` in `(record, offset)` order.
pub open spec fn div_after(a: DivEntry, b: DivEntry) -> bool {
    a.record > b.record || (a.record == b.record && a.offset > b.offset)
}

/// One in-range pointer per record, in non-decreasing order.
pub open spec fn div_valid(es: Seq<DivEntry>, record_count: nat) -> bool {
    &&& es.len() == record_count
    &&& forall|i: int| 0 <= i < es.len() ==> (#[trigger] es[i]).record < record_count
    &&& forall|i: int| 0 <= i < es.len() - 1 ==> !div_after(#[trigger] es[i], es[i + 1])
}

impl Div {
    /// One zero-offset pointer to each of `record_count` records.
    pub fn for_records(record_count: usize) -> (d: Self)
        requires
            record_count <= u32::MAX,
        ensures
            d.entries@.len() == record_count,
            forall|i: int| 0 <= i < record_count ==> #[trigger] d.entries@[i]
                == (DivEntry { record: i as u32, offset: 0 }),
    {
        let mut entries: Vec<DivEntry> = Vec::new();
        let mut record: usize = 0;
        while record < record_count
            invariant
                record <= record_count <= u32::MAX,
                entries@.len() == record,
                forall|i: int| 0 <= i < record ==> #[trigger] entries@[i]
                    == (DivEntry { record: i as u32, offset: 0 }),
            decreases record_count - record,
        {
            entries.push(DivEntry { record: record as u32, offset: 0 });
            record = record + 1;
        }
        Div { entries }
    }

    /// Check one pointer per record, all in range and monotonic.
    pub fn validate(&self, record_count: usize) -> (r: Result<(), Error>)
        ensures
            r is Ok <==> div_valid(self.entries@, record_count as nat),
            r matches Err(e) ==> e is Output,
    {
        if self.entries.len() != record_count {
            return Err(output_error("DIV entry count does not match record count"));
        }
        let mut i: usize = 0;
        while i < self.entries.len()
            invariant
                i <= self.entries@.len(),
                forall|k: int| 0 <= k < i ==> (#[trigger] self.entries@[k]).record < record_count,
            decreases self.entries@.len() - i,
        {
            if self.entries[i].record as usize >= record_count {
                return Err(output_error("DIV record pointer is outside text records"));
            }
            i = i + 1;
        }
        let mut j: usize = 0;
        let n = self.entries.len();
        while j + 1 < n
            invariant
                n == self.entries@.len(),
                j < n || (n == 0 && j == 0),
                forall|k: int| 0 <= k < self.entries@.len() ==> (#[trigger] self.entries@[k]).record < record_count,
                forall|k: int| 0 <= k < j ==> !div_after(#[trigger] self.entries@[k], self.entries@[k + 1]),
            decreases self.entries@.len() - j,
        {
            let a = self.entries[j];
            let b = self.entries[j + 1];
            if a.record > b.record || (a.record == b.record && a.offset > b.offset) {
                assert(div_after(self.entries@[j as int], self.entries@[j + 1]));
                return Err(output_error("DIV pointers must be monotonic"));
            }
            j = j + 1;
        }
        Ok(())
    }
}

} // verus!
