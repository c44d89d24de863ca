//! Type-directed binary encoding of primitive fields.
//!
//! Every value is encoded little-endian with fixed-width length prefixes
//! for variable data: 32-bit and 64-bit unsigned integers as 4 and 8 bytes,
//! booleans as one byte (0 or 1), byte blobs and UTF-8 text as a 4-byte
//! length followed by the raw bytes.  A zero-length text field is a decode
//! error; a zero-length blob is not.  Decoding never reads past the end of
//! the supplied buffer: a field that would is a decode error.

use vstd::prelude::*;
use vstd::bytes::*;
use vstd::slice::*;
use vstd::utf8::*;

use crate::StoreError;

verus! {

/// The encoding of a text field: 4-byte little-endian byte length, then the
/// UTF-8 bytes of the text.
pub open spec fn spec_encode_text(s: Seq<char>) -> Seq<u8> {
    spec_u32_to_le_bytes(encode_utf8(s).len() as u32) + encode_utf8(s)
}

/// A text field that the format can carry: at least one byte (zero-length
/// text is reserved as a decode-failure signal) and a length that fits the
/// 4-byte prefix.
pub open spec fn text_encodable(s: Seq<char>) -> bool {
    1 <= encode_utf8(s).len() <= u32::MAX
}

/// The result of reading one text field at offset `off`: the decoded
/// characters and the offset just past the field, or `None` when the prefix
/// or the bytes run past the buffer, the length is zero, or the bytes are
/// not valid UTF-8.
pub open spec fn spec_decode_text(data: Seq<u8>, off: int) -> Option<(Seq<char>, int)> {
    if 0 <= off && off + 4 <= data.len() {
        let len = spec_u32_from_le_bytes(data.subrange(off, off + 4)) as int;
        if 1 <= len && off + 4 + len <= data.len() {
            let bytes = data.subrange(off + 4, off + 4 + len);
            if valid_utf8(bytes) {
                Some((decode_utf8(bytes), off + 4 + len))
            } else {
                None
            }
        } else {
            None
        }
    } else {
        None
    }
}

/// Relies on `String::from_utf8`: it returns `Ok` exactly when the bytes
/// are valid UTF-8, and the string it returns then decodes those bytes.
#[verifier::external_body]
fn bytes_to_string(v: Vec<u8>) -> (r: Option<String>)
    ensures
        r matches Some(s) ==> valid_utf8(v@) && s@ == decode_utf8(v@),
        r is None ==> !valid_utf8(v@),
{
    match String::from_utf8(v) {
        Ok(s) => Some(s),
        Err(_) => None,
    }
}

/// Append the 4-byte little-endian encoding of `x`.
pub fn encode_u32(data: &mut Vec<u8>, x: u32)
    ensures
        final(data)@ == old(data)@ + spec_u32_to_le_bytes(x),
{
    let mut b = u32_to_le_bytes(x);
    data.append(&mut b);
}

/// Read a 32-bit unsigned integer at `*off`, advancing the cursor.
pub fn decode_u32(data: &[u8], off: &mut usize) -> (r: Result<u32, StoreError>)
    ensures
        r is Ok <==> *old(off) + 4 <= data@.len(),
        r matches Ok(x) ==> {
            &&& x == spec_u32_from_le_bytes(data@.subrange(*old(off) as int, *old(off) + 4))
            &&& *final(off) == *old(off) + 4
        },
        r is Err ==> r == Result::<u32, StoreError>::Err(StoreError::Decode) && *final(off) == *old(off),
{
    if data.len() < 4 || *off > data.len() - 4 {
        return Err(StoreError::Decode);
    }
    let b = slice_subrange(data, *off, *off + 4);
    let x = u32_from_le_bytes(b);
    *off = *off + 4;
    Ok(x)
}

/// Append the 8-byte little-endian encoding of `x`.
pub fn encode_u64(data: &mut Vec<u8>, x: u64)
    ensures
        final(data)@ == old(data)@ + spec_u64_to_le_bytes(x),
{
    let mut b = u64_to_le_bytes(x);
    data.append(&mut b);
}

/// Read a 64-bit unsigned integer at `*off`, advancing the cursor.
pub fn decode_u64(data: &[u8], off: &mut usize) -> (r: Result<u64, StoreError>)
    ensures
        r is Ok <==> *old(off) + 8 <= data@.len(),
        r matches Ok(x) ==> {
            &&& x == spec_u64_from_le_bytes(data@.subrange(*old(off) as int, *old(off) + 8))
            &&& *final(off) == *old(off) + 8
        },
        r is Err ==> r == Result::<u64, StoreError>::Err(StoreError::Decode) && *final(off) == *old(off),
{
    if data.len() < 8 || *off > data.len() - 8 {
        return Err(StoreError::Decode);
    }
    let b = slice_subrange(data, *off, *off + 8);
    let x = u64_from_le_bytes(b);
    *off = *off + 8;
    Ok(x)
}

/// Append a boolean as one byte, 1 for true and 0 for false.
pub fn encode_bool(data: &mut Vec<u8>, b: bool)
    ensures
        final(data)@ == old(data)@ + seq![if b { 1u8 } else { 0u8 }],
{
    data.push(if b { 1u8 } else { 0u8 });
    assert(data@ =~= old(data)@ + seq![if b { 1u8 } else { 0u8 }]);
}

/// Read a boolean at `*off`: one byte that must be 0 or 1.
pub fn decode_bool(data: &[u8], off: &mut usize) -> (r: Result<bool, StoreError>)
    ensures
        r is Ok <==> *old(off) < data@.len() && (data@[*old(off) as int] == 0 || data@[*old(off) as int] == 1),
        r matches Ok(b) ==> b == (data@[*old(off) as int] == 1) && *final(off) == *old(off) + 1,
        r is Err ==> r == Result::<bool, StoreError>::Err(StoreError::Decode) && *final(off) == *old(off),
{
    if *off >= data.len() {
        return Err(StoreError::Decode);
    }
    let byte = *slice_index_get(data, *off);
    if byte == 0 || byte == 1 {
        *off = *off + 1;
        Ok(byte == 1)
    } else {
        Err(StoreError::Decode)
    }
}

/// Append a byte blob: 4-byte little-endian length, then the raw bytes.
pub fn encode_bytes(data: &mut Vec<u8>, blob: &[u8])
    requires
        blob@.len() <= u32::MAX,
    ensures
        final(data)@ == old(data)@ + spec_u32_to_le_bytes(blob@.len() as u32) + blob@,
{
    encode_u32(data, blob.len() as u32);
    let mut b = slice_to_vec(blob);
    data.append(&mut b);
    assert(data@ =~= old(data)@ + spec_u32_to_le_bytes(blob@.len() as u32) + blob@);
}

/// Read a byte blob at `*off`: a 4-byte length prefix, then that many bytes.
/// A zero length is allowed for blobs.
pub fn decode_bytes(data: &[u8], off: &mut usize) -> (r: Result<Vec<u8>, StoreError>)
    ensures
        r is Ok <==> *old(off) + 4 <= data@.len() && *old(off) + 4 + spec_u32_from_le_bytes(
            data@.subrange(*old(off) as int, *old(off) + 4),
        ) <= data@.len(),
        r matches Ok(b) ==> {
            &&& b@ == data@.subrange(*old(off) + 4, *old(off) + 4 + spec_u32_from_le_bytes(
                data@.subrange(*old(off) as int, *old(off) + 4),
            ))
            &&& *final(off) == *old(off) + 4 + spec_u32_from_le_bytes(
                data@.subrange(*old(off) as int, *old(off) + 4),
            )
        },
        r is Err ==> r == Result::<Vec<u8>, StoreError>::Err(StoreError::Decode) && *final(off) == *old(off),
{
    let mut cur = *off;
    let len = match decode_u32(data, &mut cur) {
        Ok(l) => l as usize,
        Err(e) => {
            return Err(e);
        },
    };
    if len > data.len() - cur {
        return Err(StoreError::Decode);
    }
    let b = slice_subrange(data, cur, cur + len);
    *off = cur + len;
    Ok(slice_to_vec(b))
}

/// Append a text field: 4-byte little-endian byte length, then the UTF-8
/// bytes of `s`.
pub fn encode_text(data: &mut Vec<u8>, s: &str)
    requires
        encode_utf8(s@).len() <= u32::MAX,
    ensures
        final(data)@ == old(data)@ + spec_encode_text(s@),
{
    let bytes = s.as_bytes();
    encode_bytes(data, bytes);
}

/// Read a text field at `*off`, advancing the cursor exactly when it
/// decodes.  The result is pinned by [`spec_decode_text`].
pub fn decode_text(data: &[u8], off: &mut usize) -> (r: Result<String, StoreError>)
    ensures
        r is Ok <==> spec_decode_text(data@, *old(off) as int) is Some,
        r matches Ok(s) ==> spec_decode_text(data@, *old(off) as int) == Some((s@, *final(off) as int)),
        r is Err ==> r == Result::<String, StoreError>::Err(StoreError::Decode) && *final(off) == *old(off),
{
    let mut cur = *off;
    let len = match decode_u32(data, &mut cur) {
        Ok(l) => l as usize,
        Err(e) => {
            return Err(e);
        },
    };
    if len == 0 || len > data.len() - cur {
        return Err(StoreError::Decode);
    }
    let b = slice_to_vec(slice_subrange(data, cur, cur + len));
    match bytes_to_string(b) {
        Some(s) => {
            *off = cur + len;
            Ok(s)
        },
        None => Err(StoreError::Decode),
    }
}

} // verus!
