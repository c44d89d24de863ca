//! The encoding interface every persisted record type offers.

use vstd::prelude::*;

verus! {

/// A type with a binary form.  `serialize` emits exactly the bytes that
/// `spec_encoding` describes; `deserialize` reads a value back from a
/// buffer, starting at `*byte_offset` and advancing it past the bytes it
/// consumed.  Implementations pin down precisely when `deserialize`
/// succeeds and which value it returns.
pub trait BinarySerializable: Sized {
    /// The byte image of this value.
    spec fn spec_encoding(&self) -> Seq<u8>;

    /// Whether the value fits the format, e.g. whether every
    /// length-prefixed field fits its prefix.
    spec fn spec_encodable(&self) -> bool;

    fn serialize(&self) -> (r: Vec<u8>)
        requires
            self.spec_encodable(),
        ensures
            r@ == self.spec_encoding(),
    ;

    fn deserialize(data: &[u8], byte_offset: &mut usize) -> (r: Result<Self, String>)
        ensures
            r matches Ok(v) ==> v.spec_encodable() && *old(byte_offset) <= *final(byte_offset)
                <= data@.len(),
            r matches Ok(v) ==> data@.subrange(
                *old(byte_offset) as int,
                *final(byte_offset) as int,
            ) == v.spec_encoding(),
    ;
}

} // verus!
