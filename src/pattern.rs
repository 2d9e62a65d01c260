//! Pattern grids and the flattening of a song into one channel's events.
use crate::binary_reader::BinaryReader;
use crate::event_stream::{all_row_events, EventStream, MAX_EVENTS};
use crate::FormatError;
use crate::row::Row;
use crate::symbol::Symbol;
use vstd::prelude::*;

verus! {

/// Rows of every channel for one pattern. A channel may store fewer rows
/// than `num_rows`; the missing ones are empty.
pub struct Pattern {
    pub num_rows: usize,
    pub channels: Vec<Vec<Row>>,
}

/// The byte at `p`, zero past the end.
pub open spec fn byte_at(d: Seq<u8>, p: int) -> u8 {
    if 0 <= p < d.len() {
        d[p]
    } else {
        0
    }
}

/// One packed cell at `q` of the zero-padded bytes, and its length. A first
/// byte with the high bit set says which fields follow; otherwise it is the
/// note and the four other fields follow.
pub open spec fn unpack_cell(d: Seq<u8>, q: int) -> (Row, int) {
    let b = byte_at(d, q);
    if b & 0x80 != 0 {
        let n = if b & 1 != 0 { 1int } else { 0 };
        let i = if b & 2 != 0 { 1int } else { 0 };
        let v = if b & 4 != 0 { 1int } else { 0 };
        let t = if b & 8 != 0 { 1int } else { 0 };
        let e = if b & 16 != 0 { 1int } else { 0 };
        let row = Row {
            note: if n == 1 { byte_at(d, q + 1) } else { 0 },
            instrument: if i == 1 { byte_at(d, q + 1 + n) } else { 0 },
            volume: if v == 1 { byte_at(d, q + 1 + n + i) } else { 0 },
            effect_type: if t == 1 { byte_at(d, q + 1 + n + i + v) } else { 0 },
            effect_param: if e == 1 { byte_at(d, q + 1 + n + i + v + t) } else { 0 },
        };
        (row, 1 + n + i + v + t + e)
    } else {
        let row = Row {
            note: b,
            instrument: byte_at(d, q + 1),
            volume: byte_at(d, q + 2),
            effect_type: byte_at(d, q + 3),
            effect_param: byte_at(d, q + 4),
        };
        (row, 5)
    }
}

/// The cells packed in `remaining` bytes from `q` on (the last one may run
/// over), and where they end.
pub open spec fn unpack_cells(d: Seq<u8>, q: int, remaining: int) -> (Seq<Row>, int)
    decreases remaining,
{
    if remaining <= 0 {
        (Seq::empty(), q)
    } else {
        let (r, n) = unpack_cell(d, q);
        if n < 1 || remaining - n <= 0 {
            (seq![r], q + n)
        } else {
            let (rest, end) = unpack_cells(d, q + n, remaining - n);
            (seq![r] + rest, end)
        }
    }
}

/// Length of the pattern header: header length (4), packing type (1), row
/// count (2), packed size (2).
pub const PATTERN_HEADER_LEN: usize = 9;

impl Pattern {
    /// The record of a channel on a row, empty where none is stored.
    pub open spec fn spec_row(&self, channel_index: int, row_index: int) -> Row {
        if 0 <= channel_index < self.channels@.len() && 0 <= row_index
            < self.channels@[channel_index]@.len() {
            self.channels@[channel_index]@[row_index]
        } else {
            Row::empty()
        }
    }

    /// The channel's events over the pattern's rows.
    pub open spec fn events(&self, channel_index: int) -> Seq<Symbol> {
        Seq::new(self.num_rows as nat, |r: int| Symbol::RowEvent(self.spec_row(channel_index, r)))
    }

    pub fn get_channel_row(&self, channel_index: usize, row_index: usize) -> (r: Row)
        ensures
            r == self.spec_row(channel_index as int, row_index as int),
    {
        if channel_index >= self.channels.len() {
            return Row::new();
        }
        let rows = &self.channels[channel_index];
        if row_index < rows.len() {
            rows[row_index]
        } else {
            Row::new()
        }
    }
}

/// Reads one packed cell from the zero-padded bytes at `q`.
fn read_cell(br: &mut BinaryReader, Ghost(q): Ghost<int>) -> (r: (Row, usize))
    requires
        q >= 0,
        old(br).pos == vstd::math::min(q, old(br).data@.len() as int),
    ensures
        final(br).data == old(br).data,
        r.0 == unpack_cell(old(br).data@, q).0,
        r.1 == unpack_cell(old(br).data@, q).1,
        1 <= r.1 <= 6,
        final(br).pos == vstd::math::min(q + r.1, old(br).data@.len() as int),
{
    let b = br.read_u8();
    let mut n: usize = 1;
    let mut row = Row::new();
    if b & 0x80 != 0 {
        if b & 1 != 0 {
            row.note = br.read_u8();
            n += 1;
        }
        if b & 2 != 0 {
            row.instrument = br.read_u8();
            n += 1;
        }
        if b & 4 != 0 {
            row.volume = br.read_u8();
            n += 1;
        }
        if b & 8 != 0 {
            row.effect_type = br.read_u8();
            n += 1;
        }
        if b & 16 != 0 {
            row.effect_param = br.read_u8();
            n += 1;
        }
    } else {
        row.note = b;
        row.instrument = br.read_u8();
        row.volume = br.read_u8();
        row.effect_type = br.read_u8();
        row.effect_param = br.read_u8();
        n = 5;
    }
    (row, n)
}

impl Pattern {
    /// The cells read, distributed row by row over the channels: cell `k`
    /// goes to channel `k % C`, row `k / C`, where `C` is the channel count.
    pub open spec fn holds_cells(&self, cells: Seq<Row>, num_rows: nat, nc: nat) -> bool {
        &&& self.num_rows == num_rows
        &&& self.channels@.len() == nc
        &&& forall|c: int|
            0 <= c < nc ==> (#[trigger] self.channels@[c])@.len() == num_rows && forall|l: int|
                0 <= l < num_rows ==> #[trigger] self.channels@[c]@[l] == (if l * nc + c
                    < cells.len() {
                    cells[l * nc + c]
                } else {
                    Row::empty()
                })
    }

    /// Reads a pattern in the module format: the header (its length, the
    /// packing type, the row count, the packed size), then packed cells
    /// for each row, channel after channel. Bytes past the end read as zero.
    /// The channel count is the number of channels the pattern already has.
    /// Fails where the header is cut short or the cells do not fit the rows;
    /// the pattern is then left as it was.
    pub fn parse(&mut self, br: &mut BinaryReader) -> (r: Result<(), FormatError>)
        ensures
            final(br).data == old(br).data,
            ({
                let d = old(br).data@;
                let p = old(br).pos as int;
                let nc = old(self).channels@.len();
                let num_rows = d[p + 5] + 256 * d[p + 6];
                let size = d[p + 7] + 256 * d[p + 8];
                let (cells, end) = unpack_cells(d, p + 9, size as int);
                if p + 9 > d.len() {
                    r is Err && *final(self) == *old(self)
                } else if cells.len() > nc * num_rows {
                    r is Err && *final(self) == *old(self)
                } else {
                    &&& r is Ok
                    &&& final(self).holds_cells(cells, num_rows as nat, nc)
                    &&& final(br).pos == vstd::math::min(end, d.len() as int)
                }
            }),
    {
        let ghost d = br.data@;
        let ghost p = br.pos as int;
        if br.pos > br.data.len() || br.data.len() - br.pos < PATTERN_HEADER_LEN {
            return Err(FormatError::new("pattern header ends early"));
        }
        let _pattern_header_len = br.read_u32();
        // Packing type, not used
        br.read_u8();
        let num_rows = br.read_u16() as usize;
        let packed_data_size = br.read_u16() as usize;
        let num_channels = self.channels.len();
        let ghost nc = num_channels as int;
        let ghost all = unpack_cells(d, p + 9, packed_data_size as int);
        let mut cells: Vec<Row> = Vec::new();
        let mut i: usize = 0;
        let mut line: usize = 0;
        let mut channel: usize = 0;
        let ghost mut q: int = p + 9;
        while i < packed_data_size
            invariant
                br.data@ == d,
                br.data == old(br).data,
                *self == *old(self),
                0 <= i,
                q >= 0,
                br.pos == vstd::math::min(q, d.len() as int),
                num_channels == nc,
                packed_data_size <= 0xFFFF,
                d == old(br).data@,
                p == old(br).pos,
                p + 9 <= d.len(),
                num_rows == d[p + 5] + 256 * d[p + 6],
                packed_data_size == d[p + 7] + 256 * d[p + 8],
                nc == old(self).channels@.len(),
                all == unpack_cells(d, p + 9, packed_data_size as int),
                cells@.len() <= i,
                all.0 == cells@ + unpack_cells(d, q, packed_data_size - i).0,
                all.1 == unpack_cells(d, q, packed_data_size - i).1,
                num_channels > 0 ==> channel < num_channels && cells@.len() == line * nc + channel,
                num_channels > 0 ==> line <= num_rows,
                num_channels > 0 && line == num_rows ==> channel == 0,
                num_channels == 0 ==> cells@.len() == 0,
                line <= num_rows,
                i <= packed_data_size + 6,
            decreases packed_data_size + 6 - i,
        {
            if num_channels == 0 || line >= num_rows {
                proof {
                    let rest = unpack_cells(d, q, packed_data_size - i).0;
                    assert(rest.len() > 0);
                    if num_channels > 0 {
                        assert(cells@.len() == num_rows * nc) by (nonlinear_arith)
                            requires
                                cells@.len() == line * nc + channel,
                                line == num_rows,
                                channel == 0,
                        ;
                    }
                    assert(all.0.len() > nc * num_rows) by (nonlinear_arith)
                        requires
                            all.0.len() == cells@.len() + rest.len(),
                            rest.len() > 0,
                            nc == 0 ==> cells@.len() == 0,
                            nc > 0 ==> cells@.len() == num_rows * nc,
                            nc >= 0,
                    ;
                }
                let e = Err(FormatError::new("pattern cells do not fit its rows"));
                assert(num_rows == d[p + 5] + 256 * d[p + 6]);
                assert(packed_data_size == d[p + 7] + 256 * d[p + 8]);
                assert(p + 9 <= d.len());
                return e;
            }
            let (row, n) = read_cell(br, Ghost(q));
            proof {
                let rem = packed_data_size - i;
                let (r0, n0) = unpack_cell(d, q);
                assert(n0 >= 1);
                if rem - n0 <= 0 {
                    assert(unpack_cells(d, q + n0, rem - n0) == (Seq::<Row>::empty(), q + n0));
                    assert(unpack_cells(d, q, rem) == (seq![r0], q + n0));
                    assert(seq![r0] =~= seq![r0] + Seq::<Row>::empty());
                } else {
                    assert(unpack_cells(d, q, rem) == ({
                        let (rest, end) = unpack_cells(d, q + n0, rem - n0);
                        (seq![r0] + rest, end)
                    }));
                }
            }
            cells.push(row);
            proof {
                assert(all.0 =~= cells@ + unpack_cells(d, q + n, packed_data_size - i - n).0);
                assert(cells@.len() == (line * nc + channel) + 1);
            }
            i = i + n;
            proof {
                q = q + n;
            }
            assert((line + 1) * nc == line * nc + nc) by (nonlinear_arith);
            channel += 1;
            if channel == num_channels {
                channel = 0;
                line += 1;
            }
        }
        proof {
            assert(unpack_cells(d, q, packed_data_size - i).0 =~= Seq::<Row>::empty());
            assert(all.0 =~= cells@);
            if nc > 0 {
                assert(cells@.len() <= nc * num_rows) by (nonlinear_arith)
                    requires
                        cells@.len() == line * nc + channel,
                        line <= num_rows,
                        line == num_rows ==> channel == 0,
                        channel < nc,
                ;
            }
        }
        // Distribute the cells over the channels.
        let k = cells.len();
        let mut channels: Vec<Vec<Row>> = Vec::new();
        let mut c: usize = 0;
        while c < num_channels
            invariant
                num_channels == nc,
                k == cells@.len(),
                channels@.len() == c,
                c <= num_channels,
                forall|cc: int|
                    0 <= cc < c ==> (#[trigger] channels@[cc])@.len() == num_rows && forall|l: int|
                        0 <= l < num_rows ==> #[trigger] channels@[cc]@[l] == (if l * nc + cc < k {
                            cells@[l * nc + cc]
                        } else {
                            Row::empty()
                        }),
            decreases num_channels - c,
        {
            let mut column: Vec<Row> = Vec::new();
            let mut idx: usize = if c < k { c } else { k };
            let mut l: usize = 0;
            while l < num_rows
                invariant
                    num_channels == nc,
                    k == cells@.len(),
                    c < num_channels,
                    l <= num_rows,
                    column@.len() == l,
                    idx == (if l * nc + c < k { l * nc + c } else { k as int }),
                    forall|ll: int|
                        0 <= ll < l ==> #[trigger] column@[ll] == (if ll * nc + c < k {
                            cells@[ll * nc + c]
                        } else {
                            Row::empty()
                        }),
                decreases num_rows - l,
            {
                if idx < k {
                    column.push(cells[idx]);
                    if num_channels <= k - idx {
                        idx = idx + num_channels;
                    } else {
                        idx = k;
                    }
                } else {
                    column.push(Row::new());
                }
                assert((l + 1) * nc + c == l * nc + c + nc) by (nonlinear_arith);
                assert(l * nc + c >= k ==> (l + 1) * nc + c >= k) by (nonlinear_arith)
                    requires
                        nc >= 0,
                ;
                l += 1;
            }
            channels.push(column);
            c += 1;
        }
        self.channels = channels;
        self.num_rows = num_rows;
        Ok(())
    }
}

/// A channel's events over the whole song: the patterns in playback order.
pub open spec fn song_events(patterns: Seq<Pattern>, order: Seq<usize>, channel_index: int) -> Seq<
    Symbol,
>
    decreases order.len(),
{
    if order.len() == 0 {
        Seq::empty()
    } else {
        song_events(patterns, order.drop_last(), channel_index) + patterns[order.last() as int].events(
            channel_index,
        )
    }
}

proof fn lemma_song_events_literal(patterns: Seq<Pattern>, order: Seq<usize>, channel_index: int)
    ensures
        all_row_events(song_events(patterns, order, channel_index)),
    decreases order.len(),
{
    if order.len() > 0 {
        lemma_song_events_literal(patterns, order.drop_last(), channel_index);
    }
}

proof fn lemma_song_events_prefix(patterns: Seq<Pattern>, order: Seq<usize>, channel_index: int, o: int)
    requires
        0 <= o <= order.len(),
    ensures
        song_events(patterns, order.subrange(0, o), channel_index).len() <= song_events(
            patterns,
            order,
            channel_index,
        ).len(),
    decreases order.len(),
{
    if o < order.len() {
        assert(order.drop_last().subrange(0, o) =~= order.subrange(0, o));
        lemma_song_events_prefix(patterns, order.drop_last(), channel_index, o);
    } else {
        assert(order.subrange(0, o) =~= order);
    }
}

/// Flattens one channel of the song into a stream of literal events, one per
/// row of every pattern in `pattern_order`.
pub fn extract_channel(patterns: &Vec<Pattern>, pattern_order: &Vec<usize>, channel_index: usize) -> (r:
    EventStream)
    requires
        forall|o: int| 0 <= o < pattern_order@.len() ==> #[trigger] pattern_order@[o] < patterns@.len(),
        song_events(patterns@, pattern_order@, channel_index as int).len() <= MAX_EVENTS,
    ensures
        r.wf(),
        r.index == channel_index,
        r.symbols@ == song_events(patterns@, pattern_order@, channel_index as int),
        r.decoded() == r.symbols@,
        r.row_dict@.len() == 0,
        r.slices@.len() == 0,
        r.slice_dict@.len() == 0,
{
    let ghost ch = channel_index as int;
    let mut symbols: Vec<Symbol> = Vec::new();
    let mut o: usize = 0;
    while o < pattern_order.len()
        invariant
            0 <= o <= pattern_order@.len(),
            ch == channel_index as int,
            forall|q: int| 0 <= q < pattern_order@.len() ==> #[trigger] pattern_order@[q] < patterns@.len(),
            song_events(patterns@, pattern_order@, ch).len() <= MAX_EVENTS,
            symbols@ == song_events(patterns@, pattern_order@.subrange(0, o as int), ch),
        decreases pattern_order@.len() - o,
    {
        let pattern = &patterns[pattern_order[o]];
        let ghost base = symbols@;
        let ghost evs = pattern.events(ch);
        proof {
            assert(pattern_order@.subrange(0, o + 1).drop_last() =~= pattern_order@.subrange(0, o as int));
            lemma_song_events_prefix(patterns@, pattern_order@, ch, o + 1);
        }
        let mut row_index: usize = 0;
        while row_index < pattern.num_rows
            invariant
                0 <= row_index <= pattern.num_rows,
                evs == pattern.events(ch),
                ch == channel_index as int,
                base.len() + evs.len() <= MAX_EVENTS,
                symbols@ == base + evs.subrange(0, row_index as int),
            decreases pattern.num_rows - row_index,
        {
            let row = pattern.get_channel_row(channel_index, row_index);
            assert(evs[row_index as int] == Symbol::RowEvent(row));
            let ghost prev = symbols@;
            symbols.push(Symbol::RowEvent(row));
            assert(evs.subrange(0, row_index + 1) =~= evs.subrange(0, row_index as int).push(
                Symbol::RowEvent(row),
            ));
            row_index += 1;
            assert(symbols@ =~= base + evs.subrange(0, row_index as int));
        }
        assert(evs.subrange(0, row_index as int) =~= evs);
        o += 1;
    }
    assert(pattern_order@.subrange(0, o as int) =~= pattern_order@);
    proof {
        lemma_song_events_literal(patterns@, pattern_order@, ch);
    }
    EventStream::from_symbols(channel_index, symbols)
}

} // verus!
