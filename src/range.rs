//! A setting with its lower bound, upper bound and default.
use crate::binary_reader::BinaryReader;
use crate::binary_writer::{le16, BinaryWriter};
use vstd::prelude::*;

verus! {

#[derive(Clone, Copy, PartialEq, Eq, Structural, Debug)]
pub struct Range<T> {
    pub min: T,
    pub max: T,
    pub default: T,
}

impl<T: Copy> Range<T> {
    /// Bounds and default all at `value`.
    pub fn new(value: T) -> (r: Range<T>)
        ensures
            r.min == value && r.max == value && r.default == value,
    {
        Range { min: value, max: value, default: value }
    }

    pub fn set_all(&mut self, value: T)
        ensures
            final(self).min == value && final(self).max == value && final(self).default == value,
    {
        self.min = value;
        self.max = value;
        self.default = value;
    }
}

impl Range<u8> {
    /// Writes min, max and default, a byte each.
    pub fn write(&self, writer: &mut BinaryWriter)
        ensures
            final(writer)@ == old(writer)@ + seq![self.min, self.max, self.default],
    {
        writer.write_u8(self.min);
        writer.write_u8(self.max);
        writer.write_u8(self.default);
        assert(writer@ =~= old(writer)@ + seq![self.min, self.max, self.default]);
    }

    /// Reads min, max and default, a byte each; zero past the end.
    pub fn read(reader: &mut BinaryReader) -> (r: Range<u8>)
        ensures
            final(reader).data == old(reader).data,
            old(reader).pos + 3 <= old(reader).data@.len() ==> {
                let d = old(reader).data@;
                let p = old(reader).pos as int;
                &&& r == (Range { min: d[p], max: d[p + 1], default: d[p + 2] })
                &&& final(reader).pos == p + 3
            },
    {
        let min = reader.read_u8();
        let max = reader.read_u8();
        let default = reader.read_u8();
        Range { min, max, default }
    }
}

impl Range<u16> {
    /// Writes min, max and default, two bytes each, little-endian.
    pub fn write(&self, writer: &mut BinaryWriter)
        ensures
            final(writer)@ == old(writer)@ + le16(self.min) + le16(self.max) + le16(self.default),
    {
        writer.write_u16(self.min);
        writer.write_u16(self.max);
        writer.write_u16(self.default);
    }

    /// Reads min, max and default, two bytes each; zero past the end.
    pub fn read(reader: &mut BinaryReader) -> (r: Range<u16>)
        ensures
            final(reader).data == old(reader).data,
            old(reader).pos + 6 <= old(reader).data@.len() ==> {
                let d = old(reader).data@;
                let p = old(reader).pos as int;
                &&& r.min == d[p] + 256 * d[p + 1]
                &&& r.max == d[p + 2] + 256 * d[p + 3]
                &&& r.default == d[p + 4] + 256 * d[p + 5]
                &&& final(reader).pos == p + 6
            },
    {
        let min = reader.read_u16();
        let max = reader.read_u16();
        let default = reader.read_u16();
        Range { min, max, default }
    }
}

} // verus!
