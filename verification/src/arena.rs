//! A bump allocator for string bytes.
//!
//! Strings are copied into one flat buffer; allocation hands back the
//! offset at which the copy begins.  A reset rewinds the allocator to
//! empty without releasing the buffer, and an allocation that would grow
//! past the fixed capacity is refused rather than performed.

use vstd::prelude::*;
use vstd::string::StringSliceAdditionalSpecFns;

verus! {

/// The arena: a flat byte buffer bumped from the front.
pub struct Arena {
    buffer: Vec<u8>,
    offset: usize,
    capacity: usize,
}

impl Arena {
    /// The bytes allocated so far, in allocation order.
    pub closed spec fn live(self) -> Seq<u8> {
        self.buffer@.take(self.offset as int)
    }

    /// The fixed capacity in bytes.
    pub closed spec fn cap(self) -> nat {
        self.capacity as nat
    }

    pub closed spec fn wf(self) -> bool {
        self.offset <= self.buffer@.len() && self.offset <= self.capacity
    }

    /// An empty arena of `capacity` bytes.
    pub fn new(capacity: usize) -> (r: Arena)
        ensures
            r.wf(),
            r.cap() == capacity,
            r.live() == Seq::<u8>::empty(),
    {
        let r = Arena { buffer: Vec::with_capacity(capacity), offset: 0, capacity };
        proof {
            assert(r.buffer@.take(0) =~= Seq::<u8>::empty());
        }
        r
    }

    /// Copy `input`'s bytes into the arena.  Returns the offset of the
    /// copy, or `None` — leaving the arena untouched — exactly when the
    /// copy would not fit in the remaining capacity.
    pub fn alloc_str(&mut self, input: &str) -> (r: Option<usize>)
        requires
            old(self).wf(),
        ensures
            final(self).wf(),
            final(self).cap() == old(self).cap(),
            r is Some <==> old(self).live().len() + input.spec_bytes().len() <= old(self).cap(),
            r matches Some(start) ==> start == old(self).live().len() && final(self).live() == old(
                self,
            ).live() + input.spec_bytes(),
            r is None ==> *final(self) == *old(self),
    {
        let bytes = input.as_bytes();
        let len = bytes.len();
        if len > self.capacity - self.offset {
            return None;
        }
        self.buffer.truncate(self.offset);
        self.buffer.extend_from_slice(bytes);
        let start = self.offset;
        self.offset = self.offset + len;
        proof {
            assert(old(self).buffer@.take(start as int).take(start as int) =~= old(
                self,
            ).buffer@.take(start as int));
            assert(self.buffer@.take(self.offset as int) =~= old(self).live() + input.spec_bytes());
        }
        Some(start)
    }

    /// Rewind to empty; the buffer is kept for reuse.
    pub fn reset(&mut self)
        ensures
            final(self).wf(),
            final(self).cap() == old(self).cap(),
            final(self).live() == Seq::<u8>::empty(),
    {
        self.offset = 0;
        proof {
            assert(self.buffer@.take(0) =~= Seq::<u8>::empty());
        }
    }
}

} // verus!
