//! FCIS and EOF trailer records.

use vstd::prelude::*;
use crate::error::Error;
use crate::kf8::wire::{be16, be32, push_tag, push_u16_be, push_u32_be, tag_fcis};

verus! {

/// The FCIS record for a text stream of `text_length` bytes: the two-entry
/// KF8 shape with block size 0x28.
pub open spec fn fcis_bytes(text_length: u32) -> Seq<u8> {
    tag_fcis() + be32(20) + be32(16) + be32(2) + be32(0) + be32(text_length) + be32(0)
        + be32(0x28) + be32(0) + be32(0x28) + be32(8) + be16(1) + be16(1) + be32(0)
}

/// Encode the FCIS record.
pub fn encode_fcis(text_length: u32) -> (r: Result<Vec<u8>, Error>)
    ensures
        r matches Ok(b) && b@ == fcis_bytes(text_length),
{
    let entry_count: usize = 2;
    let mut bytes: Vec<u8> = Vec::new();
    push_tag(&mut bytes, 70, 67, 73, 83);
    push_u32_be(&mut bytes, 20);
    push_u32_be(&mut bytes, 16);
    push_u32_be(&mut bytes, 2);
    push_u32_be(&mut bytes, 0);
    push_u32_be(&mut bytes, text_length);
    push_u32_be(&mut bytes, 0);
    let block_size: u32 = 0x28;
    push_u32_be(&mut bytes, block_size);
    let ghost head = bytes@;
    let mut i: usize = 1;
    while i < entry_count
        invariant
            1 <= i <= entry_count,
            entry_count == 2,
            block_size == 0x28,
            i == 1 ==> bytes@ == head,
            i == 2 ==> bytes@ == head + be32(0) + be32(0x28),
        decreases entry_count - i,
    {
        push_u32_be(&mut bytes, 0);
        push_u32_be(&mut bytes, block_size);
        assert(bytes@ =~= head + be32(0) + be32(0x28));
        i = i + 1;
    }
    push_u32_be(&mut bytes, 8);
    push_u16_be(&mut bytes, 1);
    push_u16_be(&mut bytes, 1);
    push_u32_be(&mut bytes, 0);
    assert(bytes@ =~= fcis_bytes(text_length));
    Ok(bytes)
}

/// The end-of-file record.
pub fn encode_eof() -> (r: Vec<u8>)
    ensures
        r@ == seq![0xe9u8, 0x8eu8, 0x0du8, 0x0au8],
{
    let mut r: Vec<u8> = Vec::new();
    push_tag(&mut r, 0xe9, 0x8e, 0x0d, 0x0a);
    assert(r@ =~= seq![0xe9u8, 0x8eu8, 0x0du8, 0x0au8]);
    r
}

} // verus!
