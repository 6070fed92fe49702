//! A cursor over a byte buffer that reads little-endian integers and
//! strings one after another.

use vstd::prelude::*;

use crate::text::{decode_lossy, utf8_lossy};
use vstd::utf8::*;

verus! {

/// The 16-bit little-endian number stored at offset `p` of `s`.
pub open spec fn le_u16(s: Seq<u8>, p: int) -> int {
    s[p] + s[p + 1] * 256
}

/// The 32-bit little-endian number stored at offset `p` of `s`.
pub open spec fn le_u32(s: Seq<u8>, p: int) -> int {
    le_u16(s, p) + le_u16(s, p + 2) * 65536
}

/// The 64-bit little-endian number stored at offset `p` of `s`.
pub open spec fn le_u64(s: Seq<u8>, p: int) -> int {
    le_u32(s, p) + le_u32(s, p + 4) * 4294967296
}

/// A 16-bit little-endian number fits in a `u16`.
pub proof fn lemma_le_u16_range(s: Seq<u8>, p: int)
    requires
        0 <= p,
        p + 2 <= s.len(),
    ensures
        0 <= le_u16(s, p) <= 0xffff,
{
}

/// A 32-bit little-endian number fits in a `u32`.
pub proof fn lemma_le_u32_range(s: Seq<u8>, p: int)
    requires
        0 <= p,
        p + 4 <= s.len(),
    ensures
        0 <= le_u32(s, p) <= 0xffff_ffff,
{
}

/// A read position inside a borrowed byte buffer.
pub struct ArchiveCursor<'a> {
    pub data: &'a [u8],
    pub pos: usize,
}

impl<'a> ArchiveCursor<'a> {
    /// Reads a little-endian `u32` and moves past it.
    pub fn read_u32(&mut self) -> (x: u32)
        requires
            old(self).pos + 4 <= old(self).data.len(),
        ensures
            final(self).data == old(self).data,
            final(self).pos == old(self).pos + 4,
            x == le_u32(old(self).data@, old(self).pos as int),
    {
        let lo = self.read_u16();
        let hi = self.read_u16();
        lo as u32 + hi as u32 * 65536
    }

    /// Reads a little-endian `u16` and moves past it.
    pub fn read_u16(&mut self) -> (x: u16)
        requires
            old(self).pos + 2 <= old(self).data.len(),
        ensures
            final(self).data == old(self).data,
            final(self).pos == old(self).pos + 2,
            x == le_u16(old(self).data@, old(self).pos as int),
    {
        let lo = self.data[self.pos];
        let hi = self.data[self.pos + 1];
        self.pos = self.pos + 2;
        lo as u16 + hi as u16 * 256
    }

    /// Reads one byte and moves past it.
    pub fn read_u8(&mut self) -> (x: u8)
        requires
            old(self).pos + 1 <= old(self).data.len(),
        ensures
            final(self).data == old(self).data,
            final(self).pos == old(self).pos + 1,
            x == old(self).data@[old(self).pos as int],
    {
        let x = self.data[self.pos];
        self.pos = self.pos + 1;
        x
    }

    /// Reads a little-endian `u64` and moves past it.
    pub fn read_u64(&mut self) -> (x: u64)
        requires
            old(self).pos + 8 <= old(self).data.len(),
        ensures
            final(self).data == old(self).data,
            final(self).pos == old(self).pos + 8,
            x == le_u64(old(self).data@, old(self).pos as int),
    {
        let lo = self.read_u32();
        let hi = self.read_u32();
        lo as u64 + hi as u64 * 4294967296
    }

    /// Reads the next `len` bytes as text (invalid UTF-8 replaced) and moves
    /// past them.
    pub fn read_string(&mut self, len: usize) -> (x: String)
        requires
            old(self).pos + len <= old(self).data.len(),
        ensures
            final(self).data == old(self).data,
            final(self).pos == old(self).pos + len,
            x@ == utf8_lossy(old(self).data@.subrange(old(self).pos as int, old(self).pos + len)),
            valid_utf8(old(self).data@.subrange(old(self).pos as int, old(self).pos + len)) ==> x@
                == decode_utf8(old(self).data@.subrange(old(self).pos as int, old(self).pos + len)),
    {
        let bytes = self.read_slice(len);
        decode_lossy(bytes)
    }

    /// Reads the next `len` bytes and moves past them.
    pub fn read_slice(&mut self, len: usize) -> (x: &[u8])
        requires
            old(self).pos + len <= old(self).data.len(),
        ensures
            final(self).data == old(self).data,
            final(self).pos == old(self).pos + len,
            x@ == old(self).data@.subrange(old(self).pos as int, old(self).pos + len),
    {
        let start = self.pos;
        self.pos = start + len;
        &self.data[start..start + len]
    }
}

} // verus!
