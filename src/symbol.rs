//! Symbols of a compressed event stream and their prefix-coded bytes.
//!
//! | bits       | kind       | payload                                   |
//! |------------|------------|-------------------------------------------|
//! | `0xxxxxxx` | Dictionary | row dictionary index                      |
//! | `10xxxxxx` | Reference  | slice table index                         |
//! | `110xxxxx` | RLE        | five bits of the count, low chunk first   |
//! | `111xxxxx` | RowEvent   | which fields follow, one byte each        |
use crate::binary_reader::BinaryReader;
use crate::binary_writer::BinaryWriter;
use crate::row::Row;
use crate::sign_u8;
use crate::FormatError;
use vstd::prelude::*;

verus! {

/// Largest dictionary index that a symbol can carry, plus one.
pub const DICTIONARY_LIMIT: u8 = 128;

/// Largest slice index that a symbol can carry, plus one.
pub const REFERENCE_LIMIT: u8 = 64;

/// The kind of symbol that a leading byte announces.
#[derive(Clone, Copy, PartialEq, Eq, Structural, Debug)]
pub enum SymbolPrefix {
    Dictionary,
    Reference,
    RLE,
    RowEvent,
}

/// The kind that a byte announces, by its leading bits.
pub open spec fn prefix_of(b: u8) -> SymbolPrefix {
    if b < 0x80 {
        SymbolPrefix::Dictionary
    } else if b < 0xC0 {
        SymbolPrefix::Reference
    } else if b < 0xE0 {
        SymbolPrefix::RLE
    } else {
        SymbolPrefix::RowEvent
    }
}

pub trait SymbolPrefixBits {
    spec fn spec_symbol_prefix(&self) -> SymbolPrefix;

    fn symbol_prefix(&self) -> (r: SymbolPrefix)
        ensures
            r == self.spec_symbol_prefix(),
    ;
}

impl SymbolPrefixBits for u8 {
    open spec fn spec_symbol_prefix(&self) -> SymbolPrefix {
        prefix_of(*self)
    }

    fn symbol_prefix(&self) -> (r: SymbolPrefix) {
        let b = *self;
        assert(((b & 0x80u8) == 0u8) == (b < 0x80u8)) by (bit_vector);
        assert(((b & 0xC0u8) == 0x80u8) == (0x80u8 <= b && b < 0xC0u8)) by (bit_vector);
        assert(((b & 0xE0u8) == 0xC0u8) == (0xC0u8 <= b && b < 0xE0u8)) by (bit_vector);
        if (b & 0b_1000_0000) == 0 {
            SymbolPrefix::Dictionary
        } else if (b & 0b_1100_0000) == 0b_1000_0000 {
            SymbolPrefix::Reference
        } else if (b & 0b_1110_0000) == 0b_1100_0000 {
            SymbolPrefix::RLE
        } else {
            SymbolPrefix::RowEvent
        }
    }
}

/// One element of a compressed event stream.
#[derive(Clone, Copy, PartialEq, Eq, Structural, Debug, Hash)]
pub enum Symbol {
    /// Placeholder; writes no bytes.
    Unknown,
    /// The row at this index of the row dictionary.
    Dictionary(u8),
    /// The symbols of this entry of the slice table.
    Reference(u8),
    /// The previous decoded event, this many more times.
    RLE(u16),
    /// A literal event.
    RowEvent(Row),
}

/// 32 to the power `k`.
pub open spec fn pow32(k: nat) -> nat
    decreases k,
{
    if k == 0 {
        1
    } else {
        32 * pow32((k - 1) as nat)
    }
}

/// The RLE bytes of a count: five bits each, low chunk first, none for zero.
pub open spec fn rle_bytes(n: nat) -> Seq<u8>
    decreases n,
{
    if n == 0 {
        Seq::empty()
    } else {
        seq![(0xC0 + n % 32) as u8] + rle_bytes(n / 32)
    }
}

/// The count that the first `k` bytes of `d` carry as RLE chunks.
pub open spec fn rle_value(d: Seq<u8>, k: nat) -> nat
    decreases k,
{
    if k == 0 {
        0
    } else {
        (d[0] % 32) as nat + 32 * rle_value(d.drop_first(), (k - 1) as nat)
    }
}

/// How many bytes from `p` on are RLE bytes.
pub open spec fn rle_run(d: Seq<u8>, p: int) -> nat
    decreases d.len() - p,
{
    if 0 <= p < d.len() && prefix_of(d[p]) == SymbolPrefix::RLE {
        1 + rle_run(d, p + 1)
    } else {
        0
    }
}

/// The header byte of a row event: which fields are non-zero.
pub open spec fn row_header(r: Row) -> u8 {
    (0xE0 + (if r.note != 0 { 1int } else { 0 }) + (if r.instrument != 0 { 2int } else { 0 }) + (
    if r.volume != 0 { 4int } else { 0 }) + (if r.effect_type != 0 { 8int } else { 0 }) + (
    if r.effect_param != 0 { 16int } else { 0 })) as u8
}

/// A byte if it is non-zero, nothing otherwise.
pub open spec fn opt_byte(b: u8) -> Seq<u8> {
    if b != 0 { seq![b] } else { Seq::empty() }
}

/// The bytes of a row event.
pub open spec fn row_bytes(r: Row) -> Seq<u8> {
    seq![row_header(r)] + opt_byte(r.note) + opt_byte(r.instrument) + opt_byte(r.volume)
        + opt_byte(r.effect_type) + opt_byte(r.effect_param)
}

impl Symbol {
    /// The symbol can be written: indices within their fields, a count above zero.
    pub open spec fn writable(self) -> bool {
        match self {
            Symbol::Unknown => false,
            Symbol::Dictionary(i) => i < DICTIONARY_LIMIT,
            Symbol::Reference(i) => i < REFERENCE_LIMIT,
            Symbol::RLE(n) => n > 0,
            Symbol::RowEvent(_) => true,
        }
    }

    /// Indices within their fields; what `write` asks.
    pub open spec fn in_range(self) -> bool {
        match self {
            Symbol::Dictionary(i) => i < DICTIONARY_LIMIT,
            Symbol::Reference(i) => i < REFERENCE_LIMIT,
            _ => true,
        }
    }

    /// The bytes that `write` appends.
    pub open spec fn encode(self) -> Seq<u8> {
        match self {
            Symbol::Unknown => Seq::empty(),
            Symbol::Dictionary(i) => seq![i],
            Symbol::Reference(i) => seq![(0x80 + i) as u8],
            Symbol::RLE(n) => rle_bytes(n as nat),
            Symbol::RowEvent(r) => row_bytes(r),
        }
    }

    pub open spec fn spec_is_row_event_or_dictionary(self) -> bool {
        self is RowEvent || self is Dictionary
    }

    pub fn is_row_event_or_dictionary(&self) -> (r: bool)
        ensures
            r == self.spec_is_row_event_or_dictionary(),
    {
        match self {
            Symbol::RowEvent(_) | Symbol::Dictionary(_) => true,
            _ => false,
        }
    }

    pub fn is_rle(&self) -> (r: bool)
        ensures
            r == self is RLE,
    {
        match self {
            Symbol::RLE(_) => true,
            _ => false,
        }
    }

    pub fn is_reference(&self) -> (r: bool)
        ensures
            r == self is Reference,
    {
        match self {
            Symbol::Reference(_) => true,
            _ => false,
        }
    }

    /// A literal event whose fields are all zero.
    pub fn is_empty_row(&self) -> (r: bool)
        ensures
            r == (*self == Symbol::RowEvent(Row::empty())),
    {
        match self {
            Symbol::RowEvent(row) => row.is_empty(),
            _ => false,
        }
    }
}

/// The row event that starts at `p`, and its length.
pub open spec fn decode_row(d: Seq<u8>, p: int) -> Option<(Symbol, nat)> {
    let h = d[p];
    let n = if h & 1 != 0 { 1int } else { 0 };
    let i = if h & 2 != 0 { 1int } else { 0 };
    let v = if h & 4 != 0 { 1int } else { 0 };
    let t = if h & 8 != 0 { 1int } else { 0 };
    let e = if h & 16 != 0 { 1int } else { 0 };
    let len = 1 + n + i + v + t + e;
    if p + len > d.len() {
        None
    } else {
        let row = Row {
            note: if n == 1 { d[p + 1] } else { 0 },
            instrument: if i == 1 { d[p + 1 + n] } else { 0 },
            volume: if v == 1 { d[p + 1 + n + i] } else { 0 },
            effect_type: if t == 1 { d[p + 1 + n + i + v] } else { 0 },
            effect_param: if e == 1 { d[p + 1 + n + i + v + t] } else { 0 },
        };
        Some((Symbol::RowEvent(row), len as nat))
    }
}

/// The symbol that starts at `p` in `d`, and how many bytes it takes;
/// `None` where the bytes end early or an RLE chain does not fit 16 bits.
pub open spec fn decode_at(d: Seq<u8>, p: int) -> Option<(Symbol, nat)> {
    if p < 0 || p >= d.len() {
        None
    } else {
        let b = d[p];
        match prefix_of(b) {
            SymbolPrefix::Dictionary => Some((Symbol::Dictionary(b), 1)),
            SymbolPrefix::Reference => Some((Symbol::Reference((b - 0x80) as u8), 1)),
            SymbolPrefix::RLE => {
                let k = rle_run(d, p);
                let v = rle_value(d.subrange(p, d.len() as int), k);
                if k > 4 || v > 0xFFFF {
                    None
                } else {
                    Some((Symbol::RLE(v as u16), k))
                }
            },
            SymbolPrefix::RowEvent => decode_row(d, p),
        }
    }
}

/// Number of RLE chunks of a count.
pub open spec fn rle_len(n: nat) -> nat {
    if n == 0 {
        0
    } else if n < 32 {
        1
    } else if n < 1024 {
        2
    } else if n < 32768 {
        3
    } else {
        4
    }
}

proof fn lemma_pow32_small(k: nat)
    requires
        k < 5,
    ensures
        pow32(k) <= 0x10_0000,
{
    assert(pow32(0) == 1);
    assert(pow32(1) == 32);
    assert(pow32(2) == 1024);
    assert(pow32(3) == 32768);
    assert(pow32(4) == 0x10_0000);
}

proof fn lemma_rle_bytes(n: nat)
    requires
        n <= 0xFFFF,
    ensures
        rle_bytes(n).len() == rle_len(n),
        forall|j: int|
            0 <= j < rle_bytes(n).len() ==> prefix_of(#[trigger] rle_bytes(n)[j])
                == SymbolPrefix::RLE,
    decreases n,
{
    if n > 0 {
        lemma_rle_bytes(n / 32);
        assert(rle_bytes(n) == seq![(0xC0 + n % 32) as u8] + rle_bytes(n / 32));
    }
}

/// Reading chunks one more byte at a time.
proof fn lemma_rle_value_extend(d: Seq<u8>, k: nat)
    requires
        k < d.len(),
    ensures
        rle_value(d, k + 1) == rle_value(d, k) + (d[k as int] % 32) as nat * pow32(k),
    decreases k,
{
    if k > 0 {
        let t = d.drop_first();
        lemma_rle_value_extend(t, (k - 1) as nat);
        assert(t[k - 1] == d[k as int]);
        let x = (d[k as int] % 32) as nat;
        let p = pow32((k - 1) as nat);
        assert(32 * (rle_value(t, (k - 1) as nat) + x * p) == 32 * rle_value(t, (k - 1) as nat) + x
            * (32 * p)) by (nonlinear_arith);
        assert(rle_value(d, k + 1) == (d[0] % 32) as nat + 32 * rle_value(t, k));
        assert(rle_value(d, k) == (d[0] % 32) as nat + 32 * rle_value(t, (k - 1) as nat));
        assert(pow32(k) == 32 * p);
        assert(rle_value(t, k) == rle_value(t, (k - 1) as nat) + x * p);
        let a = (d[0] % 32) as nat;
        let r0 = rle_value(t, (k - 1) as nat);
        let r1 = rle_value(t, k);
        let q = pow32(k);
        assert(a + 32 * r1 == (a + 32 * r0) + x * q) by (nonlinear_arith)
            requires
                r1 == r0 + x * p,
                q == 32 * p,
        ;
        assert(rle_value(d, k + 1) == rle_value(d, k) + (d[k as int] % 32) as nat * pow32(k));
    } else {
        assert(rle_value(d, 1) == (d[0] % 32) as nat + 32 * rle_value(d.drop_first(), 0));
        assert(rle_value(d, 0) == 0);
        assert(pow32(0) == 1);
        assert(rle_value(d, k + 1) == rle_value(d, k) + (d[k as int] % 32) as nat * pow32(k));
    }
}

/// A run of `k` RLE bytes that the next byte does not continue.
proof fn lemma_rle_run(d: Seq<u8>, p: int, k: nat)
    requires
        0 <= p,
        p + k <= d.len(),
        forall|j: int| p <= j < p + k ==> prefix_of(#[trigger] d[j]) == SymbolPrefix::RLE,
        p + k == d.len() || prefix_of(d[p + k]) != SymbolPrefix::RLE,
    ensures
        rle_run(d, p) == k,
    decreases k,
{
    if k > 0 {
        lemma_rle_run(d, p + 1, (k - 1) as nat);
    }
}

proof fn lemma_rle_run_at_least(d: Seq<u8>, p: int, k: nat)
    requires
        0 <= p,
        p + k <= d.len(),
        forall|j: int| p <= j < p + k ==> prefix_of(#[trigger] d[j]) == SymbolPrefix::RLE,
    ensures
        rle_run(d, p) >= k,
    decreases k,
{
    if k > 0 {
        lemma_rle_run_at_least(d, p + 1, (k - 1) as nat);
    }
}

proof fn lemma_rle_round_trip(n: nat, rest: Seq<u8>)
    ensures
        rle_value(rle_bytes(n) + rest, rle_bytes(n).len()) == n,
    decreases n,
{
    if n > 0 {
        let d = rle_bytes(n) + rest;
        lemma_rle_round_trip(n / 32, rest);
        assert(d.drop_first() =~= rle_bytes(n / 32) + rest);
        assert(d[0] == (0xC0 + n % 32) as u8);
    }
}

proof fn lemma_row_header(r: Row)
    ensures
        prefix_of(row_header(r)) == SymbolPrefix::RowEvent,
        (row_header(r) & 1 != 0) == (r.note != 0),
        (row_header(r) & 2 != 0) == (r.instrument != 0),
        (row_header(r) & 4 != 0) == (r.volume != 0),
        (row_header(r) & 8 != 0) == (r.effect_type != 0),
        (row_header(r) & 16 != 0) == (r.effect_param != 0),
{
    let n: u8 = if r.note != 0 { 1 } else { 0 };
    let i: u8 = if r.instrument != 0 { 1 } else { 0 };
    let v: u8 = if r.volume != 0 { 1 } else { 0 };
    let t: u8 = if r.effect_type != 0 { 1 } else { 0 };
    let e: u8 = if r.effect_param != 0 { 1 } else { 0 };
    let h: u8 = row_header(r);
    assert(h == 0xE0 + n + 2 * i + 4 * v + 8 * t + 16 * e);
    assert(n <= 1 && i <= 1 && v <= 1 && t <= 1 && e <= 1 && h == 0xE0 + n + 2 * i + 4 * v + 8 * t
        + 16 * e ==> h >= 0xE0 && (h & 1 != 0) == (n == 1) && (h & 2 != 0) == (i == 1) && (h & 4
        != 0) == (v == 1) && (h & 8 != 0) == (t == 1) && (h & 16 != 0) == (e == 1)) by (bit_vector);
}

/// Reading a written symbol gives it back, with its length, where the bytes
/// after it do not continue an RLE chain.
pub proof fn lemma_read_write(s: Symbol, rest: Seq<u8>)
    requires
        s.writable(),
        rest.len() == 0 || prefix_of(rest[0]) != SymbolPrefix::RLE,
    ensures
        decode_at(s.encode() + rest, 0) == Some((s, s.encode().len())),
{
    let d = s.encode() + rest;
    match s {
        Symbol::RLE(n) => {
            lemma_rle_bytes(n as nat);
            let b = rle_bytes(n as nat);
            assert forall|j: int| 0 <= j < b.len() implies prefix_of(#[trigger] d[j])
                == SymbolPrefix::RLE by {
                assert(d[j] == b[j]);
            }
            if rest.len() > 0 {
                assert(d[b.len() as int] == rest[0]);
            }
            lemma_rle_run(d, 0, b.len());
            assert(d.subrange(0, d.len() as int) =~= d);
            lemma_rle_round_trip(n as nat, rest);
        },
        Symbol::RowEvent(r) => {
            lemma_row_header(r);
            assert(d[0] == row_header(r));
        },
        _ => {},
    }
}

impl Symbol {
    /// Appends the symbol's bytes.
    pub fn write(&self, bw: &mut BinaryWriter)
        requires
            self.in_range(),
        ensures
            final(bw)@ == old(bw)@ + self.encode(),
    {
        match self {
            Symbol::Dictionary(dict) => {
                bw.write_u8(*dict);
                assert(bw@ =~= old(bw)@ + self.encode());
            },
            Symbol::Reference(index) => {
                let b = 0b_1000_0000 | *index;
                let x = *index;
                assert(x < 64 ==> 0x80u8 | x == 0x80u8 + x) by (bit_vector);
                bw.write_u8(b);
                assert(bw@ =~= old(bw)@ + self.encode());
            },
            Symbol::RLE(length) => {
                let mut l = *length;
                while l > 0
                    invariant
                        old(bw)@ + rle_bytes(*length as nat) == bw@ + rle_bytes(l as nat),
                    decreases l,
                {
                    let chunk = (l & 0b_0001_1111) as u8;
                    assert(l & 0x1Fu16 == l % 32) by (bit_vector);
                    assert(l >> 5u16 == l / 32) by (bit_vector);
                    let ghost before = bw@;
                    bw.write_u8(0b_1100_0000 | chunk);
                    assert(chunk < 32 ==> 0xC0u8 | chunk == 0xC0u8 + chunk) by (bit_vector);
                    assert(rle_bytes(l as nat) == seq![(0xC0 + (l as nat) % 32) as u8]
                        + rle_bytes((l as nat) / 32));
                    assert(bw@ + rle_bytes((l / 32) as nat) =~= before + rle_bytes(l as nat));
                    l = l >> 5;
                }
                assert(bw@ + rle_bytes(0) =~= bw@);
            },
            Symbol::RowEvent(row) => {
                let header: u8 = 0b_1110_0000 + sign_u8(row.note) + 2 * sign_u8(row.instrument) + 4
                    * sign_u8(row.volume) + 8 * sign_u8(row.effect_type) + 16 * sign_u8(
                    row.effect_param,
                );
                bw.write_u8(header);
                if row.note != 0 {
                    bw.write_u8(row.note);
                }
                if row.instrument != 0 {
                    bw.write_u8(row.instrument);
                }
                if row.volume != 0 {
                    bw.write_u8(row.volume);
                }
                if row.effect_type != 0 {
                    bw.write_u8(row.effect_type);
                }
                if row.effect_param != 0 {
                    bw.write_u8(row.effect_param);
                }
                assert(bw@ =~= old(bw)@ + self.encode());
            },
            Symbol::Unknown => {
                assert(bw@ =~= old(bw)@ + self.encode());
            },
        }
    }
}

/// The bytes of a symbol sequence, back to back.
pub open spec fn encode_all(s: Seq<Symbol>) -> Seq<u8>
    decreases s.len(),
{
    if s.len() == 0 {
        Seq::empty()
    } else {
        encode_all(s.drop_last()) + s.last().encode()
    }
}

/// A prefix never takes more bytes than the whole.
pub proof fn lemma_encode_all_prefix(s: Seq<Symbol>, i: int)
    requires
        0 <= i <= s.len(),
    ensures
        encode_all(s.subrange(0, i)).len() <= encode_all(s).len(),
    decreases s.len(),
{
    if i < s.len() {
        assert(s.drop_last().subrange(0, i) =~= s.subrange(0, i));
        lemma_encode_all_prefix(s.drop_last(), i);
    } else {
        assert(s.subrange(0, i) =~= s);
    }
}

pub trait SymbolEncodingSize {
    /// The number of bytes that writing takes.
    spec fn spec_encoding_size(&self) -> nat;

    fn encoding_size(&self) -> (r: usize)
        requires
            self.spec_encoding_size() <= usize::MAX,
        ensures
            r == self.spec_encoding_size(),
    ;
}

impl SymbolEncodingSize for Symbol {
    open spec fn spec_encoding_size(&self) -> nat {
        self.encode().len()
    }

    fn encoding_size(&self) -> (r: usize) {
        match self {
            Symbol::Dictionary(_) => 1,
            Symbol::Reference(_) => 1,
            Symbol::RLE(length) => {
                proof {
                    lemma_rle_bytes(*length as nat);
                }
                if *length == 0 {
                    0
                } else if *length < 32 {
                    1
                } else if *length < 1024 {
                    2
                } else if *length < 32768 {
                    3
                } else {
                    4
                }
            },
            Symbol::RowEvent(row) => {
                let num_present = sign_u8(row.note) + sign_u8(row.instrument) + sign_u8(row.volume)
                    + sign_u8(row.effect_type) + sign_u8(row.effect_param);
                1 + num_present as usize
            },
            Symbol::Unknown => 0,
        }
    }
}

impl SymbolEncodingSize for [Symbol] {
    open spec fn spec_encoding_size(&self) -> nat {
        encode_all(self@).len()
    }

    fn encoding_size(&self) -> (r: usize) {
        let mut size: usize = 0;
        let mut i: usize = 0;
        while i < self.len()
            invariant
                0 <= i <= self@.len(),
                size == encode_all(self@.subrange(0, i as int)).len(),
                encode_all(self@).len() <= usize::MAX,
            decreases self@.len() - i,
        {
            proof {
                let next = self@.subrange(0, i + 1);
                assert(next.drop_last() =~= self@.subrange(0, i as int));
                lemma_encode_all_prefix(self@, i + 1);
            }
            size = size + self[i].encoding_size();
            i += 1;
        }
        assert(self@.subrange(0, i as int) =~= self@);
        size
    }
}

impl Symbol {
    /// Reads one symbol at the reader's position and moves past it. On an error
    /// neither the symbol nor the reader changes.
    pub fn read(&mut self, br: &mut BinaryReader) -> (r: Result<(), FormatError>)
        ensures
            final(br).data == old(br).data,
            match decode_at(old(br).data@, old(br).pos as int) {
                Some((s, n)) => r is Ok && *final(self) == s && final(br).pos == old(br).pos + n,
                None => r is Err && *final(self) == *old(self) && final(br).pos == old(br).pos,
            },
    {
        let d = br.data;
        let p = br.pos;
        if p >= d.len() {
            return Err(FormatError::new("symbol stream ends early"));
        }
        let b = d[p];
        match b.symbol_prefix() {
            SymbolPrefix::Dictionary => {
                *self = Symbol::Dictionary(b);
                br.pos = p + 1;
            },
            SymbolPrefix::Reference => {
                assert(0x80u8 <= b && b < 0xC0u8 ==> b & 0x3Fu8 == b - 0x80u8) by (bit_vector);
                *self = Symbol::Reference(b & 0b_0011_1111);
                br.pos = p + 1;
            },
            SymbolPrefix::RLE => {
                let ghost tail = d@.subrange(p as int, d@.len() as int);
                let mut value: u64 = 0;
                let mut scale: u64 = 1;
                let mut k: usize = 0;
                while k < 5 && k < d.len() - p && d[p + k].symbol_prefix() == SymbolPrefix::RLE
                    invariant
                        p < d@.len(),
                        tail == d@.subrange(p as int, d@.len() as int),
                        0 <= k <= 5,
                        k <= d@.len() - p,
                        scale == pow32(k as nat),
                        value == rle_value(tail, k as nat),
                        value < scale,
                        forall|j: int|
                            p <= j < p + k ==> prefix_of(#[trigger] d@[j]) == SymbolPrefix::RLE,
                    decreases 5 - k,
                {
                    let c = d[p + k] & 0b_0001_1111;
                    let x = d[p + k];
                    assert(x & 0x1Fu8 == x % 32) by (bit_vector);
                    proof {
                        assert(tail[k as int] == d@[p + k]);
                        lemma_rle_value_extend(tail, k as nat);
                        assert(pow32(k as nat + 1) == 32 * pow32(k as nat));
                        lemma_pow32_small(k as nat);
                        assert((c as nat) * (scale as nat) <= 31 * (scale as nat)) by (
                        nonlinear_arith)
                            requires
                                c < 32,
                        ;
                    }
                    value = value + (c as u64) * scale;
                    scale = scale * 32;
                    k += 1;
                }
                proof {
                    if k < 5 {
                        lemma_rle_run(d@, p as int, k as nat);
                    } else {
                        lemma_rle_run_at_least(d@, p as int, k as nat);
                    }
                }
                if k == 5 || value > 0xFFFF {
                    return Err(FormatError::new("run length does not fit 16 bits"));
                }
                *self = Symbol::RLE(value as u16);
                br.pos = p + k;
            },
            SymbolPrefix::RowEvent => {
                let n: usize = if b & 1 != 0 { 1 } else { 0 };
                let i: usize = if b & 2 != 0 { 1 } else { 0 };
                let v: usize = if b & 4 != 0 { 1 } else { 0 };
                let t: usize = if b & 8 != 0 { 1 } else { 0 };
                let e: usize = if b & 16 != 0 { 1 } else { 0 };
                let len = 1 + n + i + v + t + e;
                if len > d.len() - p {
                    return Err(FormatError::new("row event ends early"));
                }
                let mut q = p + 1;
                let mut row = Row::new();
                if n == 1 {
                    row.note = d[q];
                    q += 1;
                }
                if i == 1 {
                    row.instrument = d[q];
                    q += 1;
                }
                if v == 1 {
                    row.volume = d[q];
                    q += 1;
                }
                if t == 1 {
                    row.effect_type = d[q];
                    q += 1;
                }
                if e == 1 {
                    row.effect_param = d[q];
                    q += 1;
                }
                *self = Symbol::RowEvent(row);
                br.pos = q;
            },
        }
        Ok(())
    }
}

/// No symbol takes more than six bytes.
pub proof fn lemma_encode_len(x: Symbol)
    ensures
        x.encode().len() <= 6,
{
    if let Symbol::RLE(n) = x {
        lemma_rle_bytes(n as nat);
    }
}

/// No sequence takes more than six bytes a symbol.
pub proof fn lemma_encode_all_len(s: Seq<Symbol>)
    ensures
        encode_all(s).len() <= 6 * s.len(),
    decreases s.len(),
{
    if s.len() > 0 {
        lemma_encode_all_len(s.drop_last());
        lemma_encode_len(s.last());
    }
}

/// Writes symbols back to back.
pub fn write_symbols(bw: &mut BinaryWriter, s: &[Symbol])
    requires
        forall|j: int| 0 <= j < s@.len() ==> (#[trigger] s@[j]).in_range(),
    ensures
        final(bw)@ == old(bw)@ + encode_all(s@),
{
    let mut i: usize = 0;
    while i < s.len()
        invariant
            0 <= i <= s@.len(),
            forall|j: int| 0 <= j < s@.len() ==> (#[trigger] s@[j]).in_range(),
            bw@ == old(bw)@ + encode_all(s@.subrange(0, i as int)),
        decreases s@.len() - i,
    {
        let ghost before = bw@;
        s[i].write(bw);
        proof {
            assert(s@.subrange(0, i + 1).drop_last() =~= s@.subrange(0, i as int));
            assert(bw@ =~= old(bw)@ + encode_all(s@.subrange(0, i + 1)));
        }
        i += 1;
    }
    assert(s@.subrange(0, i as int) =~= s@);
}

} // verus!
