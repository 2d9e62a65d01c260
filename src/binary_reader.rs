//! Little-endian byte input; reads past the end give zero and do not move.
use vstd::prelude::*;

verus! {

/// A cursor over borrowed bytes.
pub struct BinaryReader<'a> {
    pub data: &'a [u8],
    pub pos: usize,
}

impl<'a> BinaryReader<'a> {
    pub fn new(data: &'a [u8]) -> (r: BinaryReader<'a>)
        ensures
            r.data@ == data@,
            r.pos == 0,
    {
        BinaryReader { data, pos: 0 }
    }

    /// Moves forward by `num_bytes`, stopping at the end.
    pub fn skip(&mut self, num_bytes: usize)
        ensures
            final(self).data == old(self).data,
            final(self).pos == vstd::math::min(
                old(self).pos + num_bytes,
                old(self).data@.len() as int,
            ),
    {
        if self.pos < self.data.len() && num_bytes < self.data.len() - self.pos {
            self.pos = self.pos + num_bytes;
        } else {
            self.pos = self.data.len();
        }
    }

    /// Moves forward to the next multiple of `alignment`.
    pub fn align_to(&mut self, alignment: usize)
        requires
            alignment > 0,
            old(self).pos + alignment <= usize::MAX,
        ensures
            final(self).data == old(self).data,
            final(self).pos == old(self).pos + (if old(self).pos % alignment == 0 {
                0
            } else {
                alignment - old(self).pos % alignment
            }),
    {
        let rem = self.pos % alignment;
        if rem != 0 {
            self.pos = self.pos + (alignment - rem);
        }
    }

    /// The next byte without moving; zero at the end.
    pub fn peek_u8(&self) -> (r: u8)
        ensures
            r == (if self.pos < self.data@.len() { self.data@[self.pos as int] } else { 0 }),
    {
        if self.pos >= self.data.len() {
            return 0;
        }
        self.data[self.pos]
    }

    /// The next byte; zero, without moving, at the end.
    pub fn read_u8(&mut self) -> (r: u8)
        ensures
            final(self).data == old(self).data,
            old(self).pos < old(self).data@.len() ==> r == old(self).data@[old(self).pos as int]
                && final(self).pos == old(self).pos + 1,
            old(self).pos >= old(self).data@.len() ==> r == 0 && final(self).pos == old(self).pos,
    {
        if self.pos >= self.data.len() {
            return 0;
        }
        let value = self.data[self.pos];
        self.pos += 1;
        value
    }

    /// The next two bytes, little-endian; zero, without moving, where fewer are left.
    pub fn read_u16(&mut self) -> (r: u16)
        ensures
            final(self).data == old(self).data,
            old(self).pos + 2 <= old(self).data@.len() ==> r == old(self).data@[old(self).pos
                as int] + 256 * old(self).data@[old(self).pos + 1] && final(self).pos == old(
                self,
            ).pos + 2,
            old(self).pos + 2 > old(self).data@.len() ==> r == 0 && final(self).pos == old(
                self,
            ).pos,
    {
        if self.pos >= self.data.len() || self.data.len() - self.pos < 2 {
            return 0;
        }
        let lo = self.data[self.pos];
        let hi = self.data[self.pos + 1];
        let value = ((hi as u16) << 8) | (lo as u16);
        assert(((hi as u16) << 8) | (lo as u16) == lo + 256 * hi) by (bit_vector);
        self.pos += 2;
        value
    }

    /// The next four bytes, little-endian; zero, without moving, where fewer are left.
    pub fn read_u32(&mut self) -> (r: u32)
        ensures
            final(self).data == old(self).data,
            old(self).pos + 4 <= old(self).data@.len() ==> {
                let d = old(self).data@;
                let p = old(self).pos as int;
                &&& r == d[p] + 0x100 * d[p + 1] + 0x1_0000 * d[p + 2] + 0x100_0000 * d[p + 3]
                &&& final(self).pos == p + 4
            },
            old(self).pos + 4 > old(self).data@.len() ==> r == 0 && final(self).pos == old(
                self,
            ).pos,
    {
        if self.pos >= self.data.len() || self.data.len() - self.pos < 4 {
            return 0;
        }
        let b0 = self.data[self.pos];
        let b1 = self.data[self.pos + 1];
        let b2 = self.data[self.pos + 2];
        let b3 = self.data[self.pos + 3];
        let value = ((b3 as u32) << 24) | ((b2 as u32) << 16) | ((b1 as u32) << 8) | (b0 as u32);
        assert(((b3 as u32) << 24) | ((b2 as u32) << 16) | ((b1 as u32) << 8) | (b0 as u32)
            == b0 + 0x100 * b1 + 0x1_0000 * b2 + 0x100_0000 * b3) by (bit_vector);
        self.pos += 4;
        value
    }
}

} // verus!
