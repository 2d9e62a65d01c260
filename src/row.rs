//! The event record of one channel on one row.
use crate::cell::{pack_fields, write_packed_fields};
use vstd::prelude::*;

verus! {

/// Note, instrument, volume, effect type and effect parameter of one row.
#[derive(Clone, Copy, PartialEq, Eq, Structural, Debug, Hash)]
pub struct Row {
    pub note: u8,
    pub instrument: u8,
    pub volume: u8,
    pub effect_type: u8,
    pub effect_param: u8,
}

/// The note value that stops the current note.
pub const NOTE_OFF: u8 = 97;

impl Row {
    /// A record with every field zero.
    pub open spec fn empty() -> Row {
        Row { note: 0, instrument: 0, volume: 0, effect_type: 0, effect_param: 0 }
    }

    pub open spec fn spec_is_empty(self) -> bool {
        self == Row::empty()
    }

    /// How many of the five fields are non-zero.
    pub open spec fn num_present(self) -> nat {
        (if self.note != 0 { 1nat } else { 0nat })
        + (if self.instrument != 0 { 1nat } else { 0nat })
        + (if self.volume != 0 { 1nat } else { 0nat })
        + (if self.effect_type != 0 { 1nat } else { 0nat })
        + (if self.effect_param != 0 { 1nat } else { 0nat })
    }

    pub fn new() -> (r: Row)
        ensures
            r == Row::empty(),
    {
        Row { note: 0, instrument: 0, volume: 0, effect_type: 0, effect_param: 0 }
    }

    /// A note that starts playing: 1 to 96.
    pub fn has_valid_note(&self) -> (r: bool)
        ensures
            r == (0 < self.note && self.note < NOTE_OFF),
    {
        self.note > 0 && self.note < NOTE_OFF
    }

    /// Tone portamento, as an effect (3 or 5) or in the volume column (high nibble F).
    pub fn has_portamento(&self) -> (r: bool)
        ensures
            r == (self.effect_type == 3 || self.effect_type == 5 || self.volume >= 0xF0),
    {
        let v = self.volume;
        let high = v & 0xF0;
        assert((v & 0xF0u8 == 0xF0u8) == (v >= 0xF0u8)) by (bit_vector);
        self.effect_type == 3 || self.effect_type == 5 || high == 0xF0
    }

    pub fn is_note_off(&self) -> (r: bool)
        ensures
            r == (self.note == NOTE_OFF),
    {
        self.note == NOTE_OFF
    }

    pub fn is_empty(&self) -> (r: bool)
        ensures
            r == self.spec_is_empty(),
    {
        self.note == 0 && self.instrument == 0 && self.volume == 0 && self.effect_type == 0
            && self.effect_param == 0
    }

    /// Every field is non-zero.
    pub fn is_full(&self) -> (r: bool)
        ensures
            r == (self.num_present() == 5),
    {
        self.note != 0 && self.instrument != 0 && self.volume != 0 && self.effect_type != 0
            && self.effect_param != 0
    }
}

/// The packed-module bytes of a row. A note of 98 to 127 is a dictionary
/// index (one byte); a note with bits `101xxxxx` set starts a back reference
/// (note, instrument and volume); one with `11xxxxxx` a run length (one byte);
/// any other row takes the module format's packing.
pub open spec fn packed_row(r: Row) -> Seq<u8> {
    if 98 <= r.note < 128 {
        seq![r.note]
    } else if r.note & 0xA0 == 0xA0 {
        seq![r.note, r.instrument, r.volume]
    } else if r.note & 0xC0 == 0xC0 {
        seq![r.note]
    } else {
        pack_fields(r.note, r.instrument, r.volume, r.effect_type, r.effect_param)
    }
}

impl Row {
    /// The number of bytes that `write_packed` appends.
    pub fn get_encoding_size(&self) -> (r: usize)
        ensures
            r == packed_row(*self).len(),
    {
        if self.note >= 98 && self.note < 128 {
            return 1;
        } else if (self.note & 0b_1010_0000) == 0b_1010_0000 {
            return 3;
        } else if (self.note & 0b_1100_0000) == 0b_1100_0000 {
            return 1;
        }
        let mut num_non_zeros: usize = 0;
        if self.note != 0 {
            num_non_zeros += 1;
        }
        if self.instrument != 0 {
            num_non_zeros += 1;
        }
        if self.volume != 0 {
            num_non_zeros += 1;
        }
        if self.effect_type != 0 {
            num_non_zeros += 1;
        }
        if self.effect_param != 0 {
            num_non_zeros += 1;
        }
        if num_non_zeros < 4 {
            1 + num_non_zeros
        } else {
            5
        }
    }

    /// Appends the row's packed-module bytes.
    pub fn write_packed(&self, packed_data: &mut Vec<u8>)
        ensures
            final(packed_data)@ == old(packed_data)@ + packed_row(*self),
    {
        if self.note >= 98 && self.note < 128 {
            packed_data.push(self.note);
            assert(packed_data@ =~= old(packed_data)@ + packed_row(*self));
            return;
        } else if (self.note & 0b_1010_0000) == 0b_1010_0000 {
            packed_data.push(self.note);
            packed_data.push(self.instrument);
            packed_data.push(self.volume);
            assert(packed_data@ =~= old(packed_data)@ + packed_row(*self));
            return;
        } else if (self.note & 0b_1100_0000) == 0b_1100_0000 {
            packed_data.push(self.note);
            assert(packed_data@ =~= old(packed_data)@ + packed_row(*self));
            return;
        }
        write_packed_fields(
            packed_data,
            self.note,
            self.instrument,
            self.volume,
            self.effect_type,
            self.effect_param,
        );
    }
}

} // verus!
