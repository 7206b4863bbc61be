//! Record-0 layout helpers of the PalmDB/AZW3 serializer.

use vstd::prelude::*;
use crate::error::{Error, output_error};

verus! {

/// `length` rounded up to a multiple of four.
pub fn align4(length: usize) -> (r: Result<usize, Error>)
    ensures
        match r {
            Ok(v) => length + 3 <= usize::MAX && v == (length + 3) / 4 * 4,
            Err(e) => length + 3 > usize::MAX && (e matches Error::Output(m) && m@
                == "4-byte alignment overflow"@),
        },
{
    if length > usize::MAX - 3 {
        return Err(output_error("4-byte alignment overflow"));
    }
    let value = length + 3;
    let r = value & !3usize;
    assert(value & !3usize == value / 4 * 4) by (bit_vector);
    Ok(r)
}

} // verus!
