use crate::entry::field_at;
use crate::error::StoreError;
use vstd::bytes::u32_from_le_bytes;
use vstd::prelude::*;

verus! {

/// Reads the little-endian `u32` at `offset` of `content`; fails with
/// `CorruptFrame` when fewer than four bytes stand there.
pub fn get_int_from_le_bytes(content: &Vec<u8>, offset: u32) -> (r: Result<u32, StoreError>)
    ensures
        r is Ok <==> offset + 4 <= content@.len(),
        r is Ok ==> r->Ok_0 == field_at(content@, offset as int),
        r is Err ==> r->Err_0 == StoreError::CorruptFrame,
{
    let start = offset as usize;
    let len = content.len();
    if start > len || len - start < 4 {
        return Err(StoreError::CorruptFrame);
    }
    let s = content.as_slice();
    Ok(u32_from_le_bytes(&s[start..start + 4]))
}

} // verus!
