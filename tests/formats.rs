use xmplay::event_stream::compress_events;
use xmplay::{
    sign_u8, BinaryReader, BinaryWriter, BitWriter, Cell, EventStream, FixedU32U16, FixedU32x, FormatError, Pattern,
    Range, Row, Symbol,
};

fn row(note: u8, instrument: u8, volume: u8, effect_type: u8, effect_param: u8) -> Row {
    Row { note, instrument, volume, effect_type, effect_param }
}

#[test]
fn row_predicates() {
    assert!(row(1, 0, 0, 0, 0).has_valid_note());
    assert!(row(96, 0, 0, 0, 0).has_valid_note());
    assert!(!row(97, 0, 0, 0, 0).has_valid_note());
    assert!(!Row::new().has_valid_note());
    assert!(row(97, 0, 0, 0, 0).is_note_off());
    assert!(row(0, 0, 0, 3, 0).has_portamento());
    assert!(row(0, 0, 0, 5, 0).has_portamento());
    assert!(row(0, 0, 0xF3, 0, 0).has_portamento());
    assert!(!row(0, 0, 0xE3, 4, 0).has_portamento());
    assert!(Row::new().is_empty());
    assert!(!row(0, 0, 0, 0, 1).is_empty());
    assert!(row(1, 1, 1, 1, 1).is_full());
    assert!(!row(1, 1, 1, 1, 0).is_full());
}

#[test]
fn row_packed_bytes() {
    let cases: Vec<(Row, Vec<u8>)> = vec![
        (row(100, 5, 5, 5, 5), vec![100]),
        (row(0xA5, 7, 9, 1, 1), vec![0xA5, 7, 9]),
        (row(0xC3, 7, 9, 1, 1), vec![0xC3]),
        (row(60, 0, 0, 0, 0), vec![0x81, 60]),
        (row(60, 2, 0x40, 0, 0), vec![0x87, 60, 2, 0x40]),
        (row(60, 2, 0x40, 0x0C, 0), vec![60, 2, 0x40, 0x0C, 0]),
        (Row::new(), vec![0x80]),
    ];
    for (r, expected) in cases {
        let mut out = vec![0xAA];
        r.write_packed(&mut out);
        assert_eq!(out[1..].to_vec(), expected);
        assert_eq!(r.get_encoding_size(), expected.len());
    }
}

#[test]
fn cell_packed_bytes() {
    let mut out = Vec::new();
    Cell { note: 0, instrument: 0, volume: 0, effect_type: 0x0F, effect_param: 6 }.write_packed(&mut out);
    assert_eq!(out, vec![0x98, 0x0F, 6]);
    let mut out = Vec::new();
    Cell { note: 1, instrument: 2, volume: 3, effect_type: 4, effect_param: 5 }.write_packed(&mut out);
    assert_eq!(out, vec![1, 2, 3, 4, 5]);
    let c = Cell::new();
    assert_eq!(c, Cell { note: 0, instrument: 0, volume: 0, effect_type: 0, effect_param: 0 });
    assert!(!c.has_valid_note());
    assert!(Cell { note: 97, ..c }.is_note_off());
    assert!(Cell { volume: 0xF0, ..c }.has_portamento());
}

#[test]
fn sign_of_bytes() {
    assert_eq!(sign_u8(0), 0);
    assert_eq!(sign_u8(1), 1);
    assert_eq!(sign_u8(255), 1);
}

#[test]
fn reader_and_writer() {
    let mut bw = BinaryWriter::new();
    bw.write_u8(7);
    bw.write_u16(0x1234);
    bw.write_u32(0xA1B2C3D4);
    assert_eq!(bw.pos(), 7);
    bw.align_to(4);
    assert_eq!(bw.pos(), 8);
    bw.align_to(4);
    assert_eq!(bw.pos(), 8);
    let data = bw.into_bytes();
    assert_eq!(data, vec![7, 0x34, 0x12, 0xD4, 0xC3, 0xB2, 0xA1, 0]);
    let mut br = BinaryReader::new(&data);
    assert_eq!(br.peek_u8(), 7);
    assert_eq!(br.read_u8(), 7);
    assert_eq!(br.read_u16(), 0x1234);
    assert_eq!(br.read_u32(), 0xA1B2C3D4);
    assert_eq!(br.read_u32(), 0);
    assert_eq!(br.pos, 7);
    br.align_to(4);
    assert_eq!(br.pos, 8);
    assert_eq!(br.read_u8(), 0);
    assert_eq!(br.pos, 8);
    let mut br = BinaryReader::new(&data);
    br.skip(5);
    assert_eq!(br.pos, 5);
    br.skip(100);
    assert_eq!(br.pos, 8);
}

#[test]
fn ranges_round_trip() {
    let mut r = Range::new(6u8);
    assert_eq!((r.min, r.max, r.default), (6, 6, 6));
    r.set_all(9);
    r.max = 31;
    let mut bw = BinaryWriter::new();
    r.write(&mut bw);
    let w = Range { min: 32u16, max: 255, default: 0x1234 };
    w.write(&mut bw);
    let data = bw.into_bytes();
    assert_eq!(data, vec![9, 31, 9, 32, 0, 255, 0, 0x34, 0x12]);
    let mut br = BinaryReader::new(&data);
    assert_eq!(Range::<u8>::read(&mut br), r);
    assert_eq!(Range::<u16>::read(&mut br), w);
}

#[test]
fn fixed_point_steps() {
    let mut a = FixedU32x::from_u32(3);
    assert_eq!((a.integer, a.fract), (3, 0));
    assert!(!a.has_only_fract());
    assert!(!a.add_fract_mut(0x8000));
    assert!(a.add_fract_mut(0x9000));
    assert_eq!((a.integer, a.fract), (4, 0x1000));
    a.add_mut(&FixedU32x { integer: 1, fract: 0xF000 });
    assert_eq!((a.integer, a.fract), (6, 0));
    let mut b = FixedU32U16 { integer: 0, fract: 0x100 };
    assert!(b.has_only_fract());
    assert!(!b.add_fract_mut(0x100));
    b.add_mut(&FixedU32U16 { integer: 2, fract: 0xFF00 });
    assert_eq!((b.integer, b.fract), (3, 0x100));
    assert!(b.sub_fract_mut(0x200));
    assert_eq!((b.integer, b.fract), (2, 0xFF00));
    b.sub_mut(&FixedU32U16 { integer: 1, fract: 0xFF01 });
    assert_eq!((b.integer, b.fract), (0, 0xFFFF));
}

#[test]
fn counts_of_events_and_bytes() {
    let a = Symbol::RowEvent(row(10, 1, 0, 0, 0));
    let b = Symbol::RowEvent(row(20, 1, 0, 0, 0));
    let stream = EventStream::from_symbols(0, vec![a, b, a, a]);
    let mut counts: Vec<(Row, usize)> = vec![(row(20, 1, 0, 0, 0), 5)];
    stream.count_row_events(&mut counts);
    assert_eq!(counts, vec![(row(20, 1, 0, 0, 0), 6), (row(10, 1, 0, 0, 0), 3)]);
    let mut freqs = [0usize; 256];
    stream.count_byte_freqs(&mut freqs);
    assert_eq!(freqs[0xE3], 4);
    assert_eq!(freqs[10], 3);
    assert_eq!(freqs[20], 1);
    assert_eq!(freqs[1], 4);
    assert_eq!(freqs.iter().sum::<usize>(), 12);
}

#[test]
fn repeated_content_reuses_slice() {
    let mut stream = EventStream {
        index: 0,
        symbols: vec![
            Symbol::RowEvent(row(1, 1, 0, 0, 0)),
            Symbol::RowEvent(row(2, 1, 0, 0, 0)),
            Symbol::RowEvent(row(3, 1, 0, 0, 0)),
            Symbol::RowEvent(row(4, 1, 0, 0, 0)),
        ],
        row_dict: Vec::new(),
        slice_dict: Vec::new(),
        slices: Vec::new(),
    };
    let first = stream.get_or_create_dict_slice(0, 4);
    let again = stream.get_or_create_dict_slice(0, 4);
    assert_eq!(first, 0);
    assert_eq!(again, 0);
    assert_eq!(stream.slices, vec![(0, 4)]);
    assert_eq!(stream.slice_dict.len(), 4);
}

#[test]
fn format_error_keeps_details() {
    let e = FormatError::new("bad header");
    assert_eq!(e.description(), "bad header");
}

#[test]
fn compressed_stream_is_smaller() {
    let mut events = Vec::new();
    for _ in 0..8 {
        for n in [40u8, 0, 0, 0, 43, 0, 47, 0] {
            events.push(Symbol::RowEvent(row(n, if n > 0 { 1 } else { 0 }, 0, 0, 0)));
        }
    }
    let plain = EventStream::from_symbols(0, events.clone());
    let packed = compress_events(0, events.clone());
    assert!(packed.get_total_encoding_size() < plain.get_total_encoding_size());
    assert_eq!(packed.unpack_symbols(), events);
}

#[test]
fn pattern_parse_cells() {
    let data: Vec<u8> = vec![
        9, 0, 0, 0, 0, 3, 0, 11, 0, // header: length, packing, 3 rows, 11 packed bytes
        0x81, 60, // channel 0, row 0: note only
        61, 1, 0x40, 0, 0, // channel 1, row 0: full cell
        0x80, // channel 0, row 1: empty
        0x98, 0x0F, 6, // channel 1, row 1: effect and parameter
        0xEE, // not part of the pattern
    ];
    let mut pattern = Pattern { num_rows: 0, channels: vec![Vec::new(), Vec::new()] };
    let mut br = BinaryReader::new(&data);
    assert!(pattern.parse(&mut br).is_ok());
    assert_eq!(br.pos, 20);
    assert_eq!(pattern.num_rows, 3);
    assert_eq!(pattern.get_channel_row(0, 0), row(60, 0, 0, 0, 0));
    assert_eq!(pattern.get_channel_row(1, 0), row(61, 1, 0x40, 0, 0));
    assert_eq!(pattern.get_channel_row(0, 1), Row::new());
    assert_eq!(pattern.get_channel_row(1, 1), row(0, 0, 0, 0x0F, 6));
    assert_eq!(pattern.get_channel_row(1, 2), Row::new());
    assert_eq!(pattern.channels[0].len(), 3);
}

#[test]
fn pattern_parse_errors() {
    let short: Vec<u8> = vec![9, 0, 0, 0, 0, 1];
    let mut pattern = Pattern { num_rows: 7, channels: vec![Vec::new()] };
    let mut br = BinaryReader::new(&short);
    assert!(pattern.parse(&mut br).is_err());
    assert_eq!(pattern.num_rows, 7);
    // One row, one channel, but two cells.
    let too_many: Vec<u8> = vec![9, 0, 0, 0, 0, 1, 0, 2, 0, 0x80, 0x80];
    let mut br = BinaryReader::new(&too_many);
    assert!(pattern.parse(&mut br).is_err());
    assert_eq!(pattern.num_rows, 7);
}

#[test]
fn bit_writer_packs_low_bits_first() {
    let mut w = BitWriter::new();
    w.write(0b101, 3);
    w.write_bit(true);
    w.write_u8(0xFF);
    assert_eq!(w.bytes().clone(), vec![0xFD, 0x0F]);
    let mut z = BitWriter::new();
    z.write_bit(false);
    assert_eq!(z.bytes().clone(), vec![0]);
}

#[test]
fn slice_inside_dictionary_is_reused() {
    let syms: Vec<Symbol> = (1..=5u8).map(|n| Symbol::RowEvent(row(n, 1, 0, 0, 0))).collect();
    let mut stream = EventStream {
        index: 0,
        symbols: syms.clone(),
        row_dict: Vec::new(),
        slice_dict: syms.clone(),
        slices: vec![(0, 5)],
    };
    let slot = stream.get_or_create_dict_slice(1, 4);
    assert_eq!(slot, 1);
    assert_eq!(stream.slice_dict, syms);
    assert_eq!(stream.slices, vec![(0, 5), (1, 4)]);
}
