//! Bit-granular output, least significant bit of each byte first.
use vstd::prelude::*;

verus! {

/// Bit `i` of a byte sequence, counting from the low bit of the first byte.
pub open spec fn bit_of(out: Seq<u8>, i: int) -> bool {
    (out[i / 8] >> ((i % 8) as u8)) & 1 == 1
}

/// Appends bits to an owned buffer; the last byte may be partly filled.
pub struct BitWriter {
    output: Vec<u8>,
    bit_pos: u8,
}

impl BitWriter {
    /// The bits written so far.
    pub closed spec fn bits(&self) -> Seq<bool> {
        Seq::new(self.num_bits(), |i: int| bit_of(self.output@, i))
    }

    pub closed spec fn num_bits(&self) -> nat {
        if self.bit_pos == 0 {
            self.output@.len() * 8
        } else {
            ((self.output@.len() - 1) * 8 + self.bit_pos) as nat
        }
    }

    /// The bytes written so far.
    pub closed spec fn spec_bytes(&self) -> Seq<u8> {
        self.output@
    }

    /// The position inside the last byte is below eight, and the bits above it
    /// are still zero.
    pub closed spec fn wf(&self) -> bool {
        &&& self.bit_pos < 8
        &&& self.bit_pos != 0 ==> self.output@.len() > 0 && self.output@.last() >> self.bit_pos
            == 0
    }

    pub fn new() -> (r: BitWriter)
        ensures
            r.wf(),
            r.bits() == Seq::<bool>::empty(),
            r.spec_bytes() == Seq::<u8>::empty(),
    {
        BitWriter { output: Vec::new(), bit_pos: 0 }
    }

    /// The bytes written so far: eight bits each, the last one padded with
    /// zero bits.
    pub fn bytes(&self) -> (r: &Vec<u8>)
        requires
            self.wf(),
        ensures
            r@ == self.spec_bytes(),
            r@.len() * 8 >= self.bits().len(),
            r@.len() * 8 < self.bits().len() + 8,
            forall|i: int| 0 <= i < self.bits().len() ==> bit_of(r@, i) == self.bits()[i],
            forall|i: int| self.bits().len() <= i < r@.len() * 8 ==> !bit_of(r@, i),
    {
        proof {
            assert forall|i: int| self.bits().len() <= i < self.output@.len() * 8 implies !bit_of(
                self.output@,
                i,
            ) by {
                let n = self.output@.len();
                let b = self.bit_pos;
                let last = self.output@.last();
                lemma_last_byte_index(n as int, i);
                let j = (i % 8) as u8;
                assert(j >= b);
                assert(last >> b == 0 && b <= j && j < 8 ==> (last >> j) & 1 == 0) by (bit_vector);
            }
        }
        &self.output
    }

    pub fn write_bit(&mut self, bit: bool)
        requires
            old(self).wf(),
            old(self).spec_bytes().len() < usize::MAX,
        ensures
            final(self).wf(),
            final(self).bits() == old(self).bits().push(bit),
            final(self).spec_bytes().len() <= old(self).spec_bytes().len() + 1,
    {
        let ghost old_bits = self.bits();
        let ghost n0 = self.num_bits();
        let x: u8 = if bit { 1 } else { 0 };
        if self.bit_pos == 0 {
            self.output.push(x);
            proof {
                assert(x >> 1u8 == 0 && (x >> 0u8) & 1 == x) by (bit_vector)
                    requires
                        x <= 1,
                ;
                lemma_new_byte_index(self.output@.len() as int);
            }
        } else {
            let p = self.bit_pos;
            let len = self.output.len();
            let last = self.output[len - 1];
            let new_last = last | (x << p);
            self.output.set(len - 1, new_last);
            proof {
                assert(forall|j: u8| j < p ==> (new_last >> j) & 1 == (last >> j) & 1) by (bit_vector)
                    requires
                        new_last == last | (x << p),
                        p < 8,
                        x <= 1,
                ;
                assert((new_last >> p) & 1 == x) by (bit_vector)
                    requires
                        new_last == last | (x << p),
                        last >> p == 0,
                        p < 8,
                        x <= 1,
                ;
                assert(p < 7 ==> new_last >> ((p + 1) as u8) == 0) by (bit_vector)
                    requires
                        new_last == last | (x << p),
                        last >> p == 0,
                        p < 8,
                        x <= 1,
                ;
            }
        }
        self.bit_pos = (self.bit_pos + 1) % 8;
        proof {
            let out = self.output@;
            assert(self.num_bits() == n0 + 1);
            assert forall|i: int| 0 <= i < n0 + 1 implies bit_of(out, i) == old_bits.push(bit)[i] by {
                if i < n0 {
                    lemma_div8(i, old(self).output@.len() as int);
                    if old(self).bit_pos != 0 && i / 8 == old(self).output@.len() - 1 {
                        lemma_last_byte_index(old(self).output@.len() as int, i);
                    }
                    assert(old_bits[i] == bit_of(old(self).output@, i));
                } else {
                    if old(self).bit_pos != 0 {
                        lemma_last_byte_index(old(self).output@.len() as int, i);
                    }
                }
            }
            assert(self.bits() =~= old_bits.push(bit));
        }
    }

    /// Writes the low `num_bits` bits of `data`, lowest first.
    pub fn write(&mut self, data: u32, num_bits: u8)
        requires
            old(self).wf(),
            num_bits <= 32,
            old(self).spec_bytes().len() + 40 < usize::MAX,
        ensures
            final(self).wf(),
            final(self).bits() == old(self).bits() + Seq::new(
                num_bits as nat,
                |j: int| (data >> (j as u32)) & 1 == 1,
            ),
    {
        let mut k: u8 = 0;
        while k < num_bits
            invariant
                self.wf(),
                k <= num_bits <= 32,
                self.output@.len() <= old(self).output@.len() + k,
                old(self).spec_bytes().len() + 40 < usize::MAX,
                self.bits() == old(self).bits() + Seq::new(
                    k as nat,
                    |j: int| (data >> (j as u32)) & 1 == 1,
                ),
            decreases num_bits - k,
        {
            let bit = (data >> (k as u32)) & 1 == 1;
            let ghost before = self.bits();
            let ghost before_len = self.output@.len();
            self.write_bit(bit);
            proof {
                assert(self.output@.len() <= before_len + 1);
            }
            k += 1;
            assert(self.bits() =~= old(self).bits() + Seq::new(
                k as nat,
                |j: int| (data >> (j as u32)) & 1 == 1,
            ));
        }
    }

    /// Writes the eight bits of `value`, lowest first.
    pub fn write_u8(&mut self, value: u8)
        requires
            old(self).wf(),
            old(self).spec_bytes().len() + 40 < usize::MAX,
        ensures
            final(self).wf(),
            final(self).bits() == old(self).bits() + Seq::new(
                8,
                |j: int| (value >> (j as u8)) & 1 == 1,
            ),
    {
        self.write(value as u32, 8);
        proof {
            let a = Seq::new(8, |j: int| ((value as u32) >> (j as u32)) & 1 == 1);
            let b = Seq::new(8, |j: int| (value >> (j as u8)) & 1 == 1);
            assert forall|j: int| 0 <= j < 8 implies #[trigger] a[j] == b[j] by {
                let jj = j as u8;
                assert((((value as u32) >> (jj as u32)) & 1 == 1) == ((value >> jj) & 1 == 1)) by (bit_vector)
                    requires
                        jj < 8,
                ;
            }
            assert(a =~= b);
        }
    }
}

proof fn lemma_div8(i: int, n: int)
    requires
        0 <= i < n * 8,
    ensures
        0 <= i / 8 < n,
{
    assert(0 <= i / 8 < n) by (nonlinear_arith)
        requires
            0 <= i < n * 8,
    ;
}

proof fn lemma_last_byte_index(n: int, i: int)
    requires
        n > 0,
        (n - 1) * 8 <= i < n * 8,
    ensures
        i / 8 == n - 1,
        0 <= i % 8 < 8,
        (n - 1) * 8 + i % 8 == i,
{
    assert(i / 8 == n - 1 && i % 8 == i - (n - 1) * 8) by (nonlinear_arith)
        requires
            n > 0,
            (n - 1) * 8 <= i < n * 8,
    ;
}

proof fn lemma_new_byte_index(n: int)
    requires
        n > 0,
    ensures
        ((n - 1) * 8) / 8 == n - 1,
        ((n - 1) * 8) % 8 == 0,
{
    assert(((n - 1) * 8) / 8 == n - 1 && ((n - 1) * 8) % 8 == 0) by (nonlinear_arith)
        requires
            n > 0,
    ;
}

} // verus!
