//! The pattern cell of the module format and its packed bytes.
use crate::sign_u8;
use vstd::prelude::*;

verus! {

/// A note event as stored in a module's patterns.
#[derive(Clone, Copy, PartialEq, Eq, Structural, Debug)]
pub struct Cell {
    pub note: u8,
    pub instrument: u8,
    pub volume: u8,
    pub effect_type: u8,
    pub effect_param: u8,
}

/// A byte if it is non-zero, nothing otherwise.
pub open spec fn nonzero_byte(b: u8) -> Seq<u8> {
    if b != 0 { seq![b] } else { Seq::empty() }
}

/// The module format's packing of five fields: with fewer than four
/// non-zero fields, a mask byte (high bit set) and the non-zero fields;
/// otherwise the five bytes as they are.
pub open spec fn pack_fields(n: u8, i: u8, v: u8, t: u8, e: u8) -> Seq<u8> {
    let count = (if n != 0 { 1int } else { 0 }) + (if i != 0 { 1int } else { 0 }) + (if v != 0 {
        1int
    } else {
        0
    }) + (if t != 0 { 1int } else { 0 }) + (if e != 0 { 1int } else { 0 });
    let mask = (0x80 + (if n != 0 { 1int } else { 0 }) + (if i != 0 { 2int } else { 0 }) + (if v
        != 0 {
        4int
    } else {
        0
    }) + (if t != 0 { 8int } else { 0 }) + (if e != 0 { 16int } else { 0 })) as u8;
    if count < 4 {
        seq![mask] + nonzero_byte(n) + nonzero_byte(i) + nonzero_byte(v) + nonzero_byte(t)
            + nonzero_byte(e)
    } else {
        seq![n, i, v, t, e]
    }
}

/// Appends a byte if it is non-zero.
fn push_nonzero(packed_data: &mut Vec<u8>, b: u8)
    ensures
        final(packed_data)@ == old(packed_data)@ + nonzero_byte(b),
{
    if b != 0 {
        packed_data.push(b);
    }
    assert(packed_data@ =~= old(packed_data)@ + nonzero_byte(b));
}

/// Appends the packing of five fields.
pub fn write_packed_fields(packed_data: &mut Vec<u8>, n: u8, i: u8, v: u8, t: u8, e: u8)
    ensures
        final(packed_data)@ == old(packed_data)@ + pack_fields(n, i, v, t, e),
{
    let num_non_zeros = sign_u8(n) + sign_u8(i) + sign_u8(v) + sign_u8(t) + sign_u8(e);
    let packing_mask: u8 = 0b_1000_0000 + sign_u8(n) + 2 * sign_u8(i) + 4 * sign_u8(v) + 8
        * sign_u8(t) + 16 * sign_u8(e);
    if num_non_zeros < 4 {
        packed_data.push(packing_mask);
        push_nonzero(packed_data, n);
        push_nonzero(packed_data, i);
        push_nonzero(packed_data, v);
        push_nonzero(packed_data, t);
        push_nonzero(packed_data, e);
    } else {
        packed_data.push(n);
        packed_data.push(i);
        packed_data.push(v);
        packed_data.push(t);
        packed_data.push(e);
    }
    assert(packed_data@ =~= old(packed_data)@ + pack_fields(n, i, v, t, e));
}

impl Cell {
    pub fn new() -> (r: Cell)
        ensures
            r == (Cell { note: 0, instrument: 0, volume: 0, effect_type: 0, effect_param: 0 }),
    {
        Cell { note: 0, instrument: 0, volume: 0, effect_type: 0, effect_param: 0 }
    }

    /// A note that starts playing: 1 to 96.
    pub fn has_valid_note(&self) -> (r: bool)
        ensures
            r == (0 < self.note && self.note < 97),
    {
        self.note > 0 && self.note < 97
    }

    /// Tone portamento, as an effect (3 or 5) or in the volume column (high nibble F).
    pub fn has_portamento(&self) -> (r: bool)
        ensures
            r == (self.effect_type == 3 || self.effect_type == 5 || self.volume >= 0xF0),
    {
        let v = self.volume;
        assert((v & 0xF0u8 == 0xF0u8) == (v >= 0xF0u8)) by (bit_vector);
        self.effect_type == 3 || self.effect_type == 5 || (v & 0xF0) == 0xF0
    }

    pub fn is_note_off(&self) -> (r: bool)
        ensures
            r == (self.note == 97),
    {
        self.note == 97
    }

    /// Appends the cell in the module format's packing.
    pub fn write_packed(&self, packed_data: &mut Vec<u8>)
        ensures
            final(packed_data)@ == old(packed_data)@ + pack_fields(
                self.note,
                self.instrument,
                self.volume,
                self.effect_type,
                self.effect_param,
            ),
    {
        write_packed_fields(
            packed_data,
            self.note,
            self.instrument,
            self.volume,
            self.effect_type,
            self.effect_param,
        );
    }
}

} // verus!
