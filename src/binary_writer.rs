//! Little-endian byte output.
use vstd::prelude::*;

verus! {

/// Little-endian bytes of a 16-bit value.
pub open spec fn le16(v: u16) -> Seq<u8> {
    seq![(v % 256) as u8, (v / 256) as u8]
}

/// Little-endian bytes of a 32-bit value.
pub open spec fn le32(v: u32) -> Seq<u8> {
    seq![
        (v % 0x100) as u8,
        ((v / 0x100) % 0x100) as u8,
        ((v / 0x1_0000) % 0x100) as u8,
        (v / 0x100_0000) as u8,
    ]
}

/// Appends bytes to an owned buffer.
pub struct BinaryWriter {
    output: Vec<u8>,
}

impl View for BinaryWriter {
    type V = Seq<u8>;

    closed spec fn view(&self) -> Seq<u8> {
        self.output@
    }
}

impl BinaryWriter {
    pub fn new() -> (r: BinaryWriter)
        ensures
            r@ == Seq::<u8>::empty(),
    {
        BinaryWriter { output: Vec::new() }
    }

    /// Starts after the bytes already in `output`.
    pub fn from_vec(output: Vec<u8>) -> (r: BinaryWriter)
        ensures
            r@ == output@,
    {
        BinaryWriter { output }
    }

    /// The bytes written so far.
    pub fn into_bytes(self) -> (r: Vec<u8>)
        ensures
            r@ == self@,
    {
        self.output
    }

    pub fn bytes(&self) -> (r: &Vec<u8>)
        ensures
            r@ == self@,
    {
        &self.output
    }

    /// The number of bytes written so far.
    pub fn pos(&self) -> (r: usize)
        ensures
            r == self@.len(),
    {
        self.output.len()
    }

    pub fn write_u8(&mut self, value: u8)
        ensures
            final(self)@ == old(self)@.push(value),
    {
        self.output.push(value);
    }

    pub fn write_u16(&mut self, value: u16)
        ensures
            final(self)@ == old(self)@ + le16(value),
    {
        let lo = (value & 0xFF) as u8;
        let hi = ((value >> 8) & 0xFF) as u8;
        assert(value & 0xFF == value % 256) by (bit_vector);
        assert((value >> 8) & 0xFF == value / 256) by (bit_vector);
        self.output.push(lo);
        self.output.push(hi);
        assert(self@ =~= old(self)@ + le16(value));
    }

    pub fn write_u32(&mut self, value: u32)
        ensures
            final(self)@ == old(self)@ + le32(value),
    {
        assert(value & 0xFF == value % 0x100) by (bit_vector);
        assert((value >> 8) & 0xFF == (value / 0x100) % 0x100) by (bit_vector);
        assert((value >> 16) & 0xFF == (value / 0x1_0000) % 0x100) by (bit_vector);
        assert((value >> 24) & 0xFF == value / 0x100_0000) by (bit_vector);
        self.output.push((value & 0xFF) as u8);
        self.output.push(((value >> 8) & 0xFF) as u8);
        self.output.push(((value >> 16) & 0xFF) as u8);
        self.output.push(((value >> 24) & 0xFF) as u8);
        assert(self@ =~= old(self)@ + le32(value));
    }

    /// Writes zero bytes until the length is a multiple of `alignment`.
    pub fn align_to(&mut self, alignment: usize)
        requires
            alignment > 0,
        ensures
            (final(self)@.len() as int) % (alignment as int) == 0,
            final(self)@.len() >= old(self)@.len(),
            final(self)@.len() < old(self)@.len() + alignment,
            final(self)@.subrange(0, old(self)@.len() as int) == old(self)@,
            forall|i: int|
                old(self)@.len() <= i < final(self)@.len() ==> #[trigger] final(self)@[i] == 0,
    {
        let pos = self.pos();
        let rem = pos % alignment;
        let padding = if rem == 0 { 0 } else { alignment - rem };
        proof {
            let a = alignment as int;
            let p = pos as int;
            vstd::arithmetic::div_mod::lemma_fundamental_div_mod(p, a);
            if rem != 0 {
                assert(p + (a - p % a) == (p / a + 1) * a) by (nonlinear_arith)
                    requires
                        p == a * (p / a) + p % a,
                ;
                vstd::arithmetic::div_mod::lemma_mod_multiples_basic(p / a + 1, a);
            }
        }
        let mut k: usize = 0;
        while k < padding
            invariant
                0 <= k <= padding,
                padding < alignment,
                ((pos + padding) as int) % (alignment as int) == 0,
                pos == old(self)@.len(),
                self@.len() == pos + k,
                self@.subrange(0, pos as int) == old(self)@,
                forall|i: int| pos <= i < self@.len() ==> #[trigger] self@[i] == 0,
            decreases padding - k,
        {
            self.write_u8(0);
            k += 1;
            assert(self@.subrange(0, pos as int) =~= old(self)@);
        }
    }
}

} // verus!
