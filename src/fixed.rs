//! Unsigned fixed-point numbers: a 32-bit integer part and 16 fraction bits.
use vstd::prelude::*;

verus! {

/// Fixed-point position stepping of the mixer.
#[derive(Clone, Copy, PartialEq, Eq, Structural, Debug)]
pub struct FixedU32x {
    pub integer: u32,
    pub fract: u16,
}

/// Fixed-point value of the newer player: the same layout as `FixedU32x`.
#[derive(Clone, Copy, PartialEq, Eq, Structural, Debug)]
pub struct FixedU32U16 {
    pub integer: u32,
    pub fract: u16,
}

impl FixedU32x {
    /// The number it stands for, in units of 1/65536.
    pub open spec fn value(&self) -> nat {
        self.integer as nat * 0x1_0000 + self.fract as nat
    }

    pub fn from_u32(value: u32) -> (r: FixedU32x)
        ensures
            r.integer == value,
            r.fract == 0,
            r.value() == value as nat * 0x1_0000,
    {
        FixedU32x { integer: value, fract: 0 }
    }

    /// Below one.
    pub fn has_only_fract(&self) -> (r: bool)
        ensures
            r == (self.value() < 0x1_0000),
    {
        self.integer == 0
    }

    /// Adds a fraction and says whether it carried into the integer part.
    pub fn add_fract_mut(&mut self, fract: u16) -> (carry: bool)
        requires
            old(self).value() + fract < 0x1_0000 * 0x1_0000_0000,
        ensures
            final(self).value() == old(self).value() + fract,
            carry == (old(self).fract + fract >= 0x1_0000),
    {
        let carry = self.fract as u32 + fract as u32 >= 0x1_0000;
        self.fract = self.fract.wrapping_add(fract);
        if carry {
            self.integer = self.integer + 1;
        }
        carry
    }

    pub fn add_mut(&mut self, value: &FixedU32x)
        requires
            old(self).value() + value.value() < 0x1_0000 * 0x1_0000_0000,
        ensures
            final(self).value() == old(self).value() + value.value(),
    {
        let carry = self.fract as u32 + value.fract as u32 >= 0x1_0000;
        self.integer = self.integer + value.integer;
        self.fract = self.fract.wrapping_add(value.fract);
        if carry {
            self.integer = self.integer + 1;
        }
    }
}

impl FixedU32U16 {
    /// The number it stands for, in units of 1/65536.
    pub open spec fn value(&self) -> nat {
        self.integer as nat * 0x1_0000 + self.fract as nat
    }

    /// Below one.
    pub fn has_only_fract(&self) -> (r: bool)
        ensures
            r == (self.value() < 0x1_0000),
    {
        self.integer == 0
    }

    /// Adds a fraction and says whether it carried into the integer part.
    pub fn add_fract_mut(&mut self, fract: u16) -> (carry: bool)
        requires
            old(self).value() + fract < 0x1_0000 * 0x1_0000_0000,
        ensures
            final(self).value() == old(self).value() + fract,
            carry == (old(self).fract + fract >= 0x1_0000),
    {
        let carry = self.fract as u32 + fract as u32 >= 0x1_0000;
        self.fract = self.fract.wrapping_add(fract);
        if carry {
            self.integer = self.integer + 1;
        }
        carry
    }

    pub fn add_mut(&mut self, value: &FixedU32U16)
        requires
            old(self).value() + value.value() < 0x1_0000 * 0x1_0000_0000,
        ensures
            final(self).value() == old(self).value() + value.value(),
    {
        let carry = self.fract as u32 + value.fract as u32 >= 0x1_0000;
        self.integer = self.integer + value.integer;
        self.fract = self.fract.wrapping_add(value.fract);
        if carry {
            self.integer = self.integer + 1;
        }
    }

    /// Subtracts a fraction and says whether it borrowed from the integer part.
    pub fn sub_fract_mut(&mut self, fract: u16) -> (borrow: bool)
        requires
            old(self).value() >= fract,
        ensures
            final(self).value() == old(self).value() - fract,
            borrow == (old(self).fract < fract),
    {
        let borrow = self.fract < fract;
        self.fract = self.fract.wrapping_sub(fract);
        if borrow {
            self.integer = self.integer - 1;
        }
        borrow
    }

    pub fn sub_mut(&mut self, value: &FixedU32U16)
        requires
            old(self).value() >= value.value(),
        ensures
            final(self).value() == old(self).value() - value.value(),
    {
        let borrow = self.fract < value.fract;
        self.integer = self.integer - value.integer;
        self.fract = self.fract.wrapping_sub(value.fract);
        if borrow {
            self.integer = self.integer - 1;
        }
    }
}

} // verus!
