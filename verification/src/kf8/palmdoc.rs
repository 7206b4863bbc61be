//! The PalmDOC header at the start of record 0.

use vstd::prelude::*;
use crate::error::{Error, output_error};
use crate::kf8::wire::{be16, be32, push_u16_be, push_u32_be};

verus! {

/// PalmDOC header for the continuous fixed-size decoded text-record stream.
#[derive(Debug, Clone, Copy)]
pub struct PalmDocHeader {
    /// 1 for uncompressed text records, 2 for PalmDOC compression.
    pub compression: u16,
    /// Length of the decoded text stream.
    pub text_length: u32,
    /// Number of text records.
    pub record_count: u16,
    /// Decoded size of each text record (4096 in KF8).
    pub record_size: u16,
    /// Encryption type; only 0 is supported.
    pub encryption: u16,
}

/// The header describes a supported, unencrypted stream.
pub open spec fn palmdoc_valid(h: PalmDocHeader) -> bool {
    (h.compression == 1 || h.compression == 2) && h.record_size != 0 && h.encryption == 0
}

/// The sixteen encoded header bytes.
pub open spec fn palmdoc_bytes(h: PalmDocHeader) -> Seq<u8> {
    be16(h.compression) + be16(0) + be32(h.text_length) + be16(h.record_count) + be16(h.record_size)
        + be16(h.encryption) + be16(0)
}

impl PalmDocHeader {
    /// Check for a supported compression, a non-zero record size and no encryption.
    pub fn validate(&self) -> (r: Result<(), Error>)
        ensures
            r is Ok <==> palmdoc_valid(*self),
            r matches Err(e) ==> e is Output,
    {
        if !(self.compression == 1 || self.compression == 2) {
            return Err(output_error("unsupported PalmDOC compression"));
        }
        if self.record_size == 0 {
            return Err(output_error("PalmDOC record size must be non-zero"));
        }
        if self.encryption != 0 {
            return Err(output_error("encrypted PalmDOC output is not supported"));
        }
        Ok(())
    }

    /// Encode a valid header.
    pub fn encode(self) -> (bytes: Vec<u8>)
        requires
            palmdoc_valid(self),
        ensures
            bytes@ == palmdoc_bytes(self),
            bytes@.len() == 16,
    {
        let mut bytes: Vec<u8> = Vec::new();
        push_u16_be(&mut bytes, self.compression);
        push_u16_be(&mut bytes, 0);
        push_u32_be(&mut bytes, self.text_length);
        push_u16_be(&mut bytes, self.record_count);
        push_u16_be(&mut bytes, self.record_size);
        push_u16_be(&mut bytes, self.encryption);
        push_u16_be(&mut bytes, 0);
        bytes
    }
}

} // verus!
