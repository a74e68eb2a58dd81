//! A minimal cursor over a byte vector: raw byte ranges and little-endian `u32` values.
use vstd::prelude::*;

use crate::parser::reader::{ReadError, spec_read_bytes, spec_read_u32, viewed};

verus! {

pub struct NNUEReader<'a> {
    bytes: &'a Vec<u8>,
    offset: usize,
}

impl<'a> NNUEReader<'a> {
    #[verifier::type_invariant]
    spec fn offset_in_bounds(self) -> bool {
        self.offset <= self.bytes@.len()
    }

    /// The bytes being read.
    pub closed spec fn data(&self) -> Seq<u8> {
        self.bytes@
    }

    /// The offset of the next byte to read.
    pub closed spec fn pos(&self) -> int {
        self.offset as int
    }

    pub fn new(bytes: &'a Vec<u8>) -> (r: Self)
        ensures
            r.data() == bytes@,
            r.pos() == 0,
    {
        NNUEReader { bytes, offset: 0 }
    }

    pub fn read_u32(&mut self) -> (r: Result<u32, ReadError>)
        requires
            old(self).pos() + 4 <= usize::MAX,
        ensures
            final(self).data() == old(self).data(),
            final(self).pos() <= final(self).data().len(),
            (r, final(self).pos()) == spec_read_u32(old(self).data(), old(self).pos()),
    {
        proof {
            use_type_invariant(&*self);
        }
        let start = self.offset;
        let bytes: &'a Vec<u8> = self.bytes;
        if start + 4 > bytes.len() {
            return Err(ReadError::UnexpectedEof);
        }
        let slice = &bytes.as_slice()[start..start + 4];
        self.offset = start + 4;
        Ok(slice[0] as u32 + slice[1] as u32 * 0x100 + slice[2] as u32 * 0x1_0000 + slice[3] as u32
            * 0x100_0000)
    }

    /// The next `len` bytes.
    pub fn read_bytes(&mut self, len: usize) -> (r: Result<&'a [u8], ReadError>)
        requires
            old(self).pos() + len <= usize::MAX,
        ensures
            final(self).data() == old(self).data(),
            final(self).pos() <= final(self).data().len(),
            (viewed(r), final(self).pos()) == spec_read_bytes(
                old(self).data(),
                old(self).pos(),
                len as int,
            ),
    {
        proof {
            use_type_invariant(&*self);
        }
        let start = self.offset;
        let end = start + len;
        let bytes: &'a Vec<u8> = self.bytes;
        if end > bytes.len() {
            return Err(ReadError::UnexpectedEof);
        }
        let slice = &bytes.as_slice()[start..end];
        self.offset = end;
        Ok(slice)
    }
}

} // verus!
