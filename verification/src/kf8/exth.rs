//! EXTH metadata header records.

use vstd::prelude::*;
use vstd::string::StringSliceAdditionalSpecFns;
use crate::error::{Error, output_error};
use crate::kf8::wire::{be32, push_bytes, push_tag, push_u32_be, bytes_to_vec, tag_exth};

verus! {

/// One EXTH metadata record: a numeric kind and its raw value bytes.
#[derive(Debug, Clone, PartialEq, Eq)]
pub struct ExthRecord {
    /// The EXTH record type.
    pub kind: u32,
    /// The record payload.
    pub value: Vec<u8>,
}

/// The EXTH header: an ordered list of metadata records.
#[derive(Debug, Clone, Default)]
pub struct ExthHeader {
    /// Records in output order.
    pub records: Vec<ExthRecord>,
}

/// Encoded size of one record: its 8-byte kind/length prefix plus payload.
pub open spec fn exth_record_len(r: ExthRecord) -> int {
    8 + r.value@.len() as int
}

/// Total header length: the 12-byte `EXTH`/length/count prefix plus records.
pub open spec fn exth_length(rs: Seq<ExthRecord>) -> int
    decreases rs.len(),
{
    if rs.len() == 0 { 12 } else { exth_length(rs.drop_last()) + exth_record_len(rs.last()) }
}

/// The header's length and record count both fit their `u32` fields.
pub open spec fn exth_fits(rs: Seq<ExthRecord>) -> bool {
    rs.len() <= u32::MAX && exth_length(rs) <= u32::MAX
}

/// The bytes of one record: kind, encoded size, payload.
pub open spec fn exth_record_bytes(r: ExthRecord) -> Seq<u8> {
    be32(r.kind) + be32(exth_record_len(r) as u32) + r.value@
}

/// The concatenated record bytes, in order.
pub open spec fn exth_body(rs: Seq<ExthRecord>) -> Seq<u8>
    decreases rs.len(),
{
    if rs.len() == 0 { seq![] } else { exth_body(rs.drop_last()) + exth_record_bytes(rs.last()) }
}

/// The complete encoded EXTH header.
pub open spec fn exth_bytes(rs: Seq<ExthRecord>) -> Seq<u8> {
    tag_exth() + be32(exth_length(rs) as u32) + be32(rs.len() as u32) + exth_body(rs)
}

proof fn lemma_exth_length_mono(rs: Seq<ExthRecord>, i: int)
    requires
        0 <= i <= rs.len(),
    ensures
        exth_length(rs.take(i)) <= exth_length(rs),
        exth_length(rs.take(i)) >= 12,
    decreases rs.len(),
{
    if rs.len() == 0 {
        assert(rs.take(i) =~= rs);
    } else if i == rs.len() {
        assert(rs.take(i) =~= rs);
        lemma_exth_length_mono(rs.drop_last(), 0);
        assert(rs.drop_last().take(0) =~= rs.take(0));
    } else {
        lemma_exth_length_mono(rs.drop_last(), i);
        assert(rs.drop_last().take(i) =~= rs.take(i));
    }
}

impl ExthHeader {
    /// Append a text record holding the UTF-8 bytes of `value`.
    pub fn push_text(&mut self, kind: u32, value: &str)
        ensures
            final(self).records@ == old(self).records@.push(
                ExthRecord { kind, value: final(self).records@.last().value },
            ),
            final(self).records@.last().value@ == value.spec_bytes(),
    {
        let bytes = value.as_bytes();
        self.records.push(ExthRecord { kind, value: bytes_to_vec(bytes) });
    }

    /// Append a record holding `value` verbatim.
    pub fn push_bytes(&mut self, kind: u32, value: &[u8])
        ensures
            final(self).records@ == old(self).records@.push(
                ExthRecord { kind, value: final(self).records@.last().value },
            ),
            final(self).records@.last().value@ == value@,
    {
        self.records.push(ExthRecord { kind, value: bytes_to_vec(value) });
    }

    /// Check that the header length and record count fit in `u32`.
    pub fn validate(&self) -> (r: Result<(), Error>)
        ensures
            r is Ok <==> exth_fits(self.records@),
            r matches Err(e) ==> e is Output,
    {
        if self.records.len() > 0xffff_ffffusize {
            return Err(output_error("EXTH record count exceeds u32"));
        }
        let mut length: usize = 12;
        let mut i: usize = 0;
        while i < self.records.len()
            invariant
                i <= self.records@.len(),
                length as int == exth_length(self.records@.take(i as int)),
                length <= 0xffff_ffffusize,
            decreases self.records@.len() - i,
        {
            let ghost rs = self.records@;
            assert(rs.take(i + 1).drop_last() =~= rs.take(i as int));
            let value_len = self.records[i].value.len();
            let room = 0xffff_ffffusize - length;
            if room < 8 || value_len > room - 8 {
                proof {
                    lemma_exth_length_mono(rs, i + 1);
                }
                return Err(output_error("EXTH header length exceeds u32"));
            }
            length = length + 8 + value_len;
            i = i + 1;
        }
        assert(self.records@.take(i as int) =~= self.records@);
        Ok(())
    }

    /// Validate, then encode the header.
    pub fn encode_checked(&self) -> (r: Result<Vec<u8>, Error>)
        ensures
            match r {
                Ok(bytes) => exth_fits(self.records@) && bytes@ == exth_bytes(self.records@),
                Err(e) => !exth_fits(self.records@) && e is Output,
            },
    {
        self.validate()?;
        Ok(self.encode_unchecked())
    }

    fn encode_unchecked(&self) -> (bytes: Vec<u8>)
        requires
            exth_fits(self.records@),
        ensures
            bytes@ == exth_bytes(self.records@),
    {
        let mut length: usize = 12;
        let mut i: usize = 0;
        while i < self.records.len()
            invariant
                i <= self.records@.len(),
                exth_fits(self.records@),
                length as int == exth_length(self.records@.take(i as int)),
            decreases self.records@.len() - i,
        {
            let ghost rs = self.records@;
            assert(rs.take(i + 1).drop_last() =~= rs.take(i as int));
            proof {
                lemma_exth_length_mono(rs, i + 1);
            }
            length = length + 8 + self.records[i].value.len();
            i = i + 1;
        }
        assert(self.records@.take(i as int) =~= self.records@);
        let mut bytes: Vec<u8> = Vec::new();
        push_tag(&mut bytes, 69, 88, 84, 72);
        push_u32_be(&mut bytes, length as u32);
        push_u32_be(&mut bytes, self.records.len() as u32);
        let ghost header = bytes@;
        let mut j: usize = 0;
        while j < self.records.len()
            invariant
                j <= self.records@.len(),
                exth_fits(self.records@),
                bytes@ == header + exth_body(self.records@.take(j as int)),
            decreases self.records@.len() - j,
        {
            let ghost rs = self.records@;
            assert(rs.take(j + 1).drop_last() =~= rs.take(j as int));
            proof {
                lemma_exth_length_mono(rs, j + 1);
                lemma_exth_length_mono(rs.take(j + 1), j as int);
            }
            let record = &self.records[j];
            push_u32_be(&mut bytes, record.kind);
            push_u32_be(&mut bytes, (8 + record.value.len()) as u32);
            push_bytes(&mut bytes, record.value.as_slice());
            j = j + 1;
            assert(bytes@ =~= header + exth_body(self.records@.take(j as int)));
        }
        assert(self.records@.take(j as int) =~= self.records@);
        bytes
    }
}

} // verus!
